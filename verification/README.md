# ai_slop

The verified core of `ai-slop`, a linter for outbound prose (bug reports,
commit messages, changelogs, release notes, READMEs, API docs, crate
metadata, internal docs). Every function under `src/` carries a Verus
contract; all but the few wrappers around `sha2`, `toml`, `unicode-ident`
and std calls are proved against it.

- `src/input.rs`: the input contract: size limit, hash of the bytes as
  received, byte order mark, UTF-8, line endings, the commit-message split
  into subject, body and trailers, and the manifest fields.
- `src/policy.rs`: the policy package: loading and validating the parsed
  package, rule stances per profile, and the canonical serialization the
  package digest is taken over.
- `src/rules/`: the emphasis and profile-contract rule families, the lists
  of implemented rules and parameters, the checks that say when the rules
  can finish on their inputs, and the proof that every hit points into the
  text it came from.
- `src/config.rs`: run configuration and the deployment settings read from
  a configuration file (waiver authority, demoted rules, expectations,
  scrub overrides, exempt comment markers).
- `src/text.rs`, `src/tomlv.rs`, `src/engine.rs`, `src/extract.rs`:
  byte-level text helpers, the plain TOML value model, hits, and the
  document structure rules read.

Public proof functions named `law_*` state what holds across calls: the
digest ignores the values of digest lines and whether line breaks are
written CR LF or LF, in the policy text and in the lexicons, and ignores
the order lexicons are given in when no two share a path; a loaded
package is fit for evaluation and consistent; the implemented params are
distinct and belong to implemented rules; names read back; every hit lies
inside the text.

`app/main.rs` is the command-line front end: argument parsing, file and
standard-input reads, and JSON output.
