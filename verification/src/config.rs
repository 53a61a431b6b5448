//! Run configuration: the declared profile, the input format, the limits,
//! and the deployment-owned expectations, plus the error the pipeline
//! fails closed with.

use vstd::prelude::*;
use crate::policy::{parse_toml, toml_document, toml_error_text};
use crate::tomlv::{entries_get, entry, TomlValue};
use crate::text::{str_eq, string_views};

verus! {

/// The eight artifact profiles, in package order.
#[derive(Clone, Copy, PartialEq, Eq, Debug, Structural)]
pub enum Profile {
    PublicBugReport,
    CommitMessage,
    Changelog,
    ReleaseNotes,
    Readme,
    ApiDocs,
    CargoMetadata,
    InternalDoc,
}

/// Position of each profile in package order.
pub open spec fn profile_index(p: Profile) -> nat {
    match p {
        Profile::PublicBugReport => 0,
        Profile::CommitMessage => 1,
        Profile::Changelog => 2,
        Profile::ReleaseNotes => 3,
        Profile::Readme => 4,
        Profile::ApiDocs => 5,
        Profile::CargoMetadata => 6,
        Profile::InternalDoc => 7,
    }
}

/// The profile at each package position.
pub open spec fn profile_at(i: int) -> Option<Profile> {
    if i == 0 {
        Some(Profile::PublicBugReport)
    } else if i == 1 {
        Some(Profile::CommitMessage)
    } else if i == 2 {
        Some(Profile::Changelog)
    } else if i == 3 {
        Some(Profile::ReleaseNotes)
    } else if i == 4 {
        Some(Profile::Readme)
    } else if i == 5 {
        Some(Profile::ApiDocs)
    } else if i == 6 {
        Some(Profile::CargoMetadata)
    } else if i == 7 {
        Some(Profile::InternalDoc)
    } else {
        None
    }
}

/// The command-line name of each profile.
pub open spec fn profile_name(p: Profile) -> Seq<char> {
    match p {
        Profile::PublicBugReport => "public-bug-report"@,
        Profile::CommitMessage => "commit-message"@,
        Profile::Changelog => "changelog"@,
        Profile::ReleaseNotes => "release-notes"@,
        Profile::Readme => "readme"@,
        Profile::ApiDocs => "api-docs"@,
        Profile::CargoMetadata => "cargo-metadata"@,
        Profile::InternalDoc => "internal-doc"@,
    }
}

impl Profile {
    /// Position in package order.
    pub fn index(self) -> (i: usize)
        ensures
            i == profile_index(self),
            i < 8,
    {
        match self {
            Profile::PublicBugReport => 0,
            Profile::CommitMessage => 1,
            Profile::Changelog => 2,
            Profile::ReleaseNotes => 3,
            Profile::Readme => 4,
            Profile::ApiDocs => 5,
            Profile::CargoMetadata => 6,
            Profile::InternalDoc => 7,
        }
    }

    /// The profile at a package position, for positions below eight.
    pub fn from_index(i: usize) -> (p: Option<Profile>)
        ensures
            p == profile_at(i as int),
    {
        if i == 0 {
            Some(Profile::PublicBugReport)
        } else if i == 1 {
            Some(Profile::CommitMessage)
        } else if i == 2 {
            Some(Profile::Changelog)
        } else if i == 3 {
            Some(Profile::ReleaseNotes)
        } else if i == 4 {
            Some(Profile::Readme)
        } else if i == 5 {
            Some(Profile::ApiDocs)
        } else if i == 6 {
            Some(Profile::CargoMetadata)
        } else if i == 7 {
            Some(Profile::InternalDoc)
        } else {
            None
        }
    }

    /// The command-line name.
    pub fn as_str(self) -> (s: &'static str)
        ensures
            s@ == profile_name(self),
    {
        match self {
            Profile::PublicBugReport => "public-bug-report",
            Profile::CommitMessage => "commit-message",
            Profile::Changelog => "changelog",
            Profile::ReleaseNotes => "release-notes",
            Profile::Readme => "readme",
            Profile::ApiDocs => "api-docs",
            Profile::CargoMetadata => "cargo-metadata",
            Profile::InternalDoc => "internal-doc",
        }
    }
}

/// Package positions and profiles correspond one to one: a profile's
/// position gives the profile back, and the eight positions below eight
/// are exactly those that name a profile.
pub proof fn law_profile_positions(p: Profile, i: int)
    ensures
        profile_at(profile_index(p) as int) == Some(p),
        profile_index(p) < 8,
        profile_at(i) is Some <==> 0 <= i < 8,
        profile_at(i) matches Some(q) ==> profile_index(q) == i,
{
}

/// How a rule treats a profile (or a commit field).
#[derive(Clone, Copy, PartialEq, Eq, Debug, Structural)]
pub enum Stance {
    Apply,
    Relax,
    Off,
}

/// The part of the artifact a finding sits in. Non-commit artifacts are
/// `Whole`.
#[derive(Clone, Copy, PartialEq, Eq, Debug, Structural)]
pub enum Field {
    Whole,
    Subject,
    Body,
    Trailers,
}

/// How the input bytes are read.
#[derive(Clone, Copy, PartialEq, Eq, Debug, Structural)]
pub enum InputFormat {
    Markdown,
    Text,
    Commit,
    Manifest,
}

/// The input format each profile reads unless another is asked for: commit
/// messages as commits, crate metadata as manifests, the rest as markdown.
pub open spec fn profile_format(p: Profile) -> InputFormat {
    match p {
        Profile::CommitMessage => InputFormat::Commit,
        Profile::CargoMetadata => InputFormat::Manifest,
        _ => InputFormat::Markdown,
    }
}

/// The name of an input format on the command line.
pub open spec fn format_name(f: InputFormat) -> Seq<char> {
    match f {
        InputFormat::Markdown => "markdown"@,
        InputFormat::Text => "text"@,
        InputFormat::Commit => "commit"@,
        InputFormat::Manifest => "manifest"@,
    }
}

impl InputFormat {
    /// The command-line name.
    pub fn as_str(self) -> (s: &'static str)
        ensures
            s@ == format_name(self),
    {
        match self {
            InputFormat::Markdown => "markdown",
            InputFormat::Text => "text",
            InputFormat::Commit => "commit",
            InputFormat::Manifest => "manifest",
        }
    }
}

impl Profile {
    /// The input format the profile reads by default.
    pub fn declared_format(self) -> (f: InputFormat)
        ensures
            f == profile_format(self),
    {
        match self {
            Profile::CommitMessage => InputFormat::Commit,
            Profile::CargoMetadata => InputFormat::Manifest,
            _ => InputFormat::Markdown,
        }
    }
}

/// The profile a command-line name names.
pub open spec fn profile_named(name: Seq<char>) -> Option<Profile> {
    if name == profile_name(Profile::PublicBugReport) {
        Some(Profile::PublicBugReport)
    } else if name == profile_name(Profile::CommitMessage) {
        Some(Profile::CommitMessage)
    } else if name == profile_name(Profile::Changelog) {
        Some(Profile::Changelog)
    } else if name == profile_name(Profile::ReleaseNotes) {
        Some(Profile::ReleaseNotes)
    } else if name == profile_name(Profile::Readme) {
        Some(Profile::Readme)
    } else if name == profile_name(Profile::ApiDocs) {
        Some(Profile::ApiDocs)
    } else if name == profile_name(Profile::CargoMetadata) {
        Some(Profile::CargoMetadata)
    } else if name == profile_name(Profile::InternalDoc) {
        Some(Profile::InternalDoc)
    } else {
        None
    }
}

/// The input format a command-line name names.
pub open spec fn format_named(name: Seq<char>) -> Option<InputFormat> {
    if name == format_name(InputFormat::Markdown) {
        Some(InputFormat::Markdown)
    } else if name == format_name(InputFormat::Text) {
        Some(InputFormat::Text)
    } else if name == format_name(InputFormat::Commit) {
        Some(InputFormat::Commit)
    } else if name == format_name(InputFormat::Manifest) {
        Some(InputFormat::Manifest)
    } else {
        None
    }
}

impl Profile {
    /// The profile named `name` on the command line, if any.
    pub fn from_name(name: &str) -> (p: Option<Profile>)
        ensures
            p == profile_named(name@),
    {
        if crate::text::str_eq(name, Profile::PublicBugReport.as_str()) {
            Some(Profile::PublicBugReport)
        } else if crate::text::str_eq(name, Profile::CommitMessage.as_str()) {
            Some(Profile::CommitMessage)
        } else if crate::text::str_eq(name, Profile::Changelog.as_str()) {
            Some(Profile::Changelog)
        } else if crate::text::str_eq(name, Profile::ReleaseNotes.as_str()) {
            Some(Profile::ReleaseNotes)
        } else if crate::text::str_eq(name, Profile::Readme.as_str()) {
            Some(Profile::Readme)
        } else if crate::text::str_eq(name, Profile::ApiDocs.as_str()) {
            Some(Profile::ApiDocs)
        } else if crate::text::str_eq(name, Profile::CargoMetadata.as_str()) {
            Some(Profile::CargoMetadata)
        } else if crate::text::str_eq(name, Profile::InternalDoc.as_str()) {
            Some(Profile::InternalDoc)
        } else {
            None
        }
    }
}

impl InputFormat {
    /// The input format named `name` on the command line, if any.
    pub fn from_name(name: &str) -> (f: Option<InputFormat>)
        ensures
            f == format_named(name@),
    {
        if crate::text::str_eq(name, InputFormat::Markdown.as_str()) {
            Some(InputFormat::Markdown)
        } else if crate::text::str_eq(name, InputFormat::Text.as_str()) {
            Some(InputFormat::Text)
        } else if crate::text::str_eq(name, InputFormat::Commit.as_str()) {
            Some(InputFormat::Commit)
        } else if crate::text::str_eq(name, InputFormat::Manifest.as_str()) {
            Some(InputFormat::Manifest)
        } else {
            None
        }
    }
}

/// Reading back the command-line name of a profile or an input format
/// gives it back.
pub proof fn law_names_name_back(p: Profile, f: InputFormat)
    ensures
        profile_named(profile_name(p)) == Some(p),
        format_named(format_name(f)) == Some(f),
{
    reveal_strlit("public-bug-report");
    reveal_strlit("commit-message");
    reveal_strlit("changelog");
    reveal_strlit("release-notes");
    reveal_strlit("readme");
    reveal_strlit("api-docs");
    reveal_strlit("cargo-metadata");
    reveal_strlit("internal-doc");
    reveal_strlit("markdown");
    reveal_strlit("text");
    reveal_strlit("commit");
    reveal_strlit("manifest");
    assert("commit-message"@[0] != "public-bug-report"@[0]);
    assert("changelog"@[0] != "public-bug-report"@[0]);
    assert("changelog"@[2] != "commit-message"@[2]);
    assert("release-notes"@[0] != "public-bug-report"@[0]);
    assert("release-notes"@[0] != "commit-message"@[0]);
    assert("release-notes"@[0] != "changelog"@[0]);
    assert("readme"@[0] != "public-bug-report"@[0]);
    assert("readme"@[0] != "commit-message"@[0]);
    assert("readme"@[0] != "changelog"@[0]);
    assert("readme"@[2] != "release-notes"@[2]);
    assert("api-docs"@[0] != "public-bug-report"@[0]);
    assert("api-docs"@[0] != "commit-message"@[0]);
    assert("api-docs"@[0] != "changelog"@[0]);
    assert("api-docs"@[0] != "release-notes"@[0]);
    assert("api-docs"@[0] != "readme"@[0]);
    assert("cargo-metadata"@[1] != "public-bug-report"@[1]);
    assert("cargo-metadata"@[1] != "commit-message"@[1]);
    assert("cargo-metadata"@[1] != "changelog"@[1]);
    assert("cargo-metadata"@[0] != "release-notes"@[0]);
    assert("cargo-metadata"@[0] != "readme"@[0]);
    assert("cargo-metadata"@[0] != "api-docs"@[0]);
    assert("internal-doc"@[0] != "public-bug-report"@[0]);
    assert("internal-doc"@[0] != "commit-message"@[0]);
    assert("internal-doc"@[0] != "changelog"@[0]);
    assert("internal-doc"@[0] != "release-notes"@[0]);
    assert("internal-doc"@[0] != "readme"@[0]);
    assert("internal-doc"@[0] != "api-docs"@[0]);
    assert("internal-doc"@[0] != "cargo-metadata"@[0]);
    assert("text"@[0] != "markdown"@[0]);
    assert("commit"@[0] != "markdown"@[0]);
    assert("commit"@[0] != "text"@[0]);
    assert("manifest"@[2] != "markdown"@[2]);
    assert("manifest"@[0] != "text"@[0]);
    assert("manifest"@[0] != "commit"@[0]);
}

/// Input size limit.
#[derive(Clone, Copy, PartialEq, Eq, Debug)]
pub struct Limits {
    pub max_bytes: usize,
}

/// Who may approve a waiver in a deployment.
#[derive(Clone, Copy, PartialEq, Eq, Debug, Structural)]
pub enum WaiverAuthority {
    Human,
    OrchestratorAgent,
}

/// Deployment-owned settings: who approves waivers, the rules to demote,
/// the expectations some profile-contract rules compare against, scrub
/// overrides, and the comment markers that exempt text.
#[derive(Clone, Debug)]
pub struct Deployment {
    pub waiver_authority: Option<WaiverAuthority>,
    pub demote: Vec<String>,
    pub expected_version: Option<String>,
    pub expected_license_wording: Option<String>,
    pub expected_release_body: Option<String>,
    pub scrub_overrides: Option<Vec<String>>,
    pub exempt_comment_markers: Vec<String>,
}

/// One run's configuration.
#[derive(Clone, Debug)]
pub struct Config {
    pub profile: Profile,
    pub input_format: InputFormat,
    pub limits: Limits,
    pub deployment: Deployment,
}

/// A deployment setting a configuration file may give.
#[derive(Clone, Copy, PartialEq, Eq, Debug, Structural)]
pub enum DeploymentKey {
    WaiverAuthority,
    Demote,
    ExpectedVersion,
    ExpectedLicenseWording,
    ExpectedReleaseBody,
    ScrubOverrides,
    ExemptCommentMarkers,
}

/// Why a deployment configuration was refused.
#[derive(Debug)]
pub enum DeploymentError {
    /// The configuration is not TOML; the parser's message.
    Parse(String),
    RootNotTable,
    /// A setting is present but not a string.
    NotAString(DeploymentKey),
    /// A list setting is present but not an array.
    NotAnArray(DeploymentKey),
    /// A list setting holds an entry that is not a string.
    EntryNotAString(DeploymentKey),
    /// `waiver_authority` names no authority; the name given.
    UnknownWaiverAuthority(String),
}

/// The key a deployment setting is written under.
pub open spec fn deployment_key_name(k: DeploymentKey) -> Seq<char> {
    match k {
        DeploymentKey::WaiverAuthority => "waiver_authority"@,
        DeploymentKey::Demote => "demote"@,
        DeploymentKey::ExpectedVersion => "expected_version"@,
        DeploymentKey::ExpectedLicenseWording => "expected_license_wording"@,
        DeploymentKey::ExpectedReleaseBody => "expected_release_body"@,
        DeploymentKey::ScrubOverrides => "scrub_overrides"@,
        DeploymentKey::ExemptCommentMarkers => "exempt_comment_markers"@,
    }
}

impl DeploymentKey {
    /// The key the setting is written under.
    pub fn as_str(self) -> (s: &'static str)
        ensures
            s@ == deployment_key_name(self),
    {
        match self {
            DeploymentKey::WaiverAuthority => "waiver_authority",
            DeploymentKey::Demote => "demote",
            DeploymentKey::ExpectedVersion => "expected_version",
            DeploymentKey::ExpectedLicenseWording => "expected_license_wording",
            DeploymentKey::ExpectedReleaseBody => "expected_release_body",
            DeploymentKey::ScrubOverrides => "scrub_overrides",
            DeploymentKey::ExemptCommentMarkers => "exempt_comment_markers",
        }
    }
}

/// The setting is an array of strings, not a single string.
pub open spec fn is_list_key(k: DeploymentKey) -> bool {
    k is Demote || k is ScrubOverrides || k is ExemptCommentMarkers
}

/// The authority a `waiver_authority` name names.
pub open spec fn authority_named(s: Seq<char>) -> Option<WaiverAuthority> {
    if s == "human"@ {
        Some(WaiverAuthority::Human)
    } else if s == "orchestrator-agent"@ {
        Some(WaiverAuthority::OrchestratorAgent)
    } else {
        None
    }
}

/// Every element of `a` is a string.
pub open spec fn all_strings(a: Seq<TomlValue>) -> bool {
    forall|i: int| 0 <= i < a.len() ==> #[trigger] a[i] is String
}

/// The texts of the string elements of `a`, in order.
pub open spec fn string_items(a: Seq<TomlValue>) -> Seq<Seq<char>> {
    Seq::new(a.len(), |i: int| a[i]->String_0@)
}

/// A setting is fine when absent, or present with the right type and, for
/// `waiver_authority`, an authority's name.
pub open spec fn setting_ok(t: Seq<(String, TomlValue)>, k: DeploymentKey) -> bool {
    match entries_get(t, deployment_key_name(k)) {
        None => true,
        Some(v) => if is_list_key(k) {
            v matches TomlValue::Array(a) && all_strings(a@)
        } else {
            v matches TomlValue::String(s) && (k is WaiverAuthority ==> authority_named(s@) is Some)
        },
    }
}

/// `e` is how the present setting `k` of `t` is refused.
pub open spec fn setting_refusal(t: Seq<(String, TomlValue)>, k: DeploymentKey, e: DeploymentError) -> bool {
    match entries_get(t, deployment_key_name(k)) {
        None => false,
        Some(v) => if is_list_key(k) {
            match v {
                TomlValue::Array(a) => !all_strings(a@) && e == DeploymentError::EntryNotAString(k),
                _ => e == DeploymentError::NotAnArray(k),
            }
        } else {
            match v {
                TomlValue::String(s) => {
                    &&& k is WaiverAuthority
                    &&& authority_named(s@) is None
                    &&& e matches DeploymentError::UnknownWaiverAuthority(x) && x@ == s@
                },
                _ => e == DeploymentError::NotAString(k),
            }
        },
    }
}

/// The text of a string setting, when present.
pub open spec fn setting_text(t: Seq<(String, TomlValue)>, k: DeploymentKey) -> Option<Seq<char>> {
    match entries_get(t, deployment_key_name(k)) {
        Some(TomlValue::String(s)) => Some(s@),
        _ => None,
    }
}

/// The entries of a list setting, when present.
pub open spec fn setting_items(t: Seq<(String, TomlValue)>, k: DeploymentKey) -> Option<Seq<Seq<char>>> {
    match entries_get(t, deployment_key_name(k)) {
        Some(TomlValue::Array(a)) => Some(string_items(a@)),
        _ => None,
    }
}

/// The first setting, in the order they are read, that is refused.
pub open spec fn deployment_fault(root: TomlValue) -> Option<DeploymentKey> {
    let t = root->Table_0@;
    if !setting_ok(t, DeploymentKey::WaiverAuthority) {
        Some(DeploymentKey::WaiverAuthority)
    } else if !setting_ok(t, DeploymentKey::Demote) {
        Some(DeploymentKey::Demote)
    } else if !setting_ok(t, DeploymentKey::ExpectedVersion) {
        Some(DeploymentKey::ExpectedVersion)
    } else if !setting_ok(t, DeploymentKey::ExpectedLicenseWording) {
        Some(DeploymentKey::ExpectedLicenseWording)
    } else if !setting_ok(t, DeploymentKey::ExpectedReleaseBody) {
        Some(DeploymentKey::ExpectedReleaseBody)
    } else if !setting_ok(t, DeploymentKey::ScrubOverrides) {
        Some(DeploymentKey::ScrubOverrides)
    } else if !setting_ok(t, DeploymentKey::ExemptCommentMarkers) {
        Some(DeploymentKey::ExemptCommentMarkers)
    } else {
        None
    }
}

/// The text of an optional string, by view.
pub open spec fn opt_text(s: Option<String>) -> Option<Seq<char>> {
    match s {
        Some(x) => Some(x@),
        None => None,
    }
}

/// The texts of an optional list of strings, by view.
pub open spec fn opt_texts(v: Option<Vec<String>>) -> Option<Seq<Seq<char>>> {
    match v {
        Some(x) => Some(string_views(x@)),
        None => None,
    }
}

/// The entries of a list setting, or none when it is absent.
pub open spec fn items_or_none(o: Option<Seq<Seq<char>>>) -> Seq<Seq<char>> {
    match o {
        Some(x) => x,
        None => seq![],
    }
}

/// `d` holds the settings of the configuration table `root`; absent
/// settings keep their defaults (unset, or an empty list).
pub open spec fn deployment_read(d: Deployment, root: TomlValue) -> bool {
    let t = root->Table_0@;
    &&& d.waiver_authority == match setting_text(t, DeploymentKey::WaiverAuthority) {
        Some(s) => authority_named(s),
        None => None,
    }
    &&& string_views(d.demote@) == items_or_none(setting_items(t, DeploymentKey::Demote))
    &&& opt_text(d.expected_version) == setting_text(t, DeploymentKey::ExpectedVersion)
    &&& opt_text(d.expected_license_wording) == setting_text(t, DeploymentKey::ExpectedLicenseWording)
    &&& opt_text(d.expected_release_body) == setting_text(t, DeploymentKey::ExpectedReleaseBody)
    &&& opt_texts(d.scrub_overrides) == setting_items(t, DeploymentKey::ScrubOverrides)
    &&& string_views(d.exempt_comment_markers@) == items_or_none(
        setting_items(t, DeploymentKey::ExemptCommentMarkers),
    )
}

fn read_setting(t: &Vec<(String, TomlValue)>, k: DeploymentKey) -> (r: Result<
    Option<String>,
    DeploymentError,
>)
    requires
        !is_list_key(k),
        !(k is WaiverAuthority),
    ensures
        r is Ok <==> setting_ok(t@, k),
        r matches Ok(v) ==> opt_text(v) == setting_text(t@, k),
        r matches Err(e) ==> setting_refusal(t@, k, e),
{
    match entry(t, k.as_str()) {
        None => Ok(None),
        Some(TomlValue::String(s)) => Ok(Some(crate::policy::owned(s.as_str()))),
        Some(_) => Err(DeploymentError::NotAString(k)),
    }
}

fn read_authority(t: &Vec<(String, TomlValue)>) -> (r: Result<Option<WaiverAuthority>, DeploymentError>)
    ensures
        r is Ok <==> setting_ok(t@, DeploymentKey::WaiverAuthority),
        r matches Ok(a) ==> a == match setting_text(t@, DeploymentKey::WaiverAuthority) {
            Some(s) => authority_named(s),
            None => None,
        },
        r matches Err(e) ==> setting_refusal(t@, DeploymentKey::WaiverAuthority, e),
{
    match entry(t, DeploymentKey::WaiverAuthority.as_str()) {
        None => Ok(None),
        Some(TomlValue::String(s)) => {
            if str_eq(s.as_str(), "human") {
                Ok(Some(WaiverAuthority::Human))
            } else if str_eq(s.as_str(), "orchestrator-agent") {
                Ok(Some(WaiverAuthority::OrchestratorAgent))
            } else {
                Err(DeploymentError::UnknownWaiverAuthority(crate::policy::owned(s.as_str())))
            }
        },
        Some(_) => Err(DeploymentError::NotAString(DeploymentKey::WaiverAuthority)),
    }
}

fn read_list(t: &Vec<(String, TomlValue)>, k: DeploymentKey) -> (r: Result<
    Option<Vec<String>>,
    DeploymentError,
>)
    requires
        is_list_key(k),
    ensures
        r is Ok <==> setting_ok(t@, k),
        r matches Ok(v) ==> opt_texts(v) == setting_items(t@, k),
        r matches Err(e) ==> setting_refusal(t@, k, e),
{
    let a = match entry(t, k.as_str()) {
        None => {
            return Ok(None);
        },
        Some(TomlValue::Array(a)) => a,
        Some(_) => {
            return Err(DeploymentError::NotAnArray(k));
        },
    };
    let mut out: Vec<String> = Vec::new();
    let n = a.len();
    for i in 0..n
        invariant
            n == a@.len(),
            is_list_key(k),
            entries_get(t@, deployment_key_name(k)) matches Some(TomlValue::Array(x)) && x@ == a@,
            all_strings(a@.take(i as int)),
            string_views(out@) == string_items(a@.take(i as int)),
    {
        match &a[i] {
            TomlValue::String(s) => {
                let ghost before = out@;
                let o = crate::policy::owned(s.as_str());
                out.push(o);
                assert(string_views(out@) =~= string_views(before).push(s@));
                assert(a@.take(i + 1)[i as int] == a@[i as int]);
                assert(string_items(a@.take(i + 1)) =~= string_items(a@.take(i as int)).push(s@));
                assert(all_strings(a@.take(i + 1)));
            },
            _ => {
                assert(!all_strings(a@)) by {
                    assert(!(a@[i as int] is String));
                }
                return Err(DeploymentError::EntryNotAString(k));
            },
        }
    }
    assert(a@.take(n as int) =~= a@);
    Ok(Some(out))
}

/// The deployment settings a parsed configuration gives. A setting that is
/// present with the wrong type, or a `waiver_authority` that names no
/// authority, is refused, never skipped: a mistyped `expected_version =
/// 0.1` must not quietly turn the checks that key on it off. Absent
/// settings keep their defaults; other keys are not read.
pub fn deployment_from(root: &TomlValue) -> (r: Result<Deployment, DeploymentError>)
    ensures
        !(root is Table) ==> r matches Err(DeploymentError::RootNotTable),
        root is Table ==> (r is Err <==> deployment_fault(*root) is Some),
        root is Table ==> (r matches Err(e) ==> deployment_fault(*root) matches Some(k)
            && setting_refusal(root->Table_0@, k, e)),
        r matches Ok(d) ==> deployment_read(d, *root),
{
    let t = match root {
        TomlValue::Table(t) => t,
        _ => {
            return Err(DeploymentError::RootNotTable);
        },
    };
    let waiver_authority = match read_authority(t) {
        Ok(v) => v,
        Err(e) => {
            return Err(e);
        },
    };
    let demote = match read_list(t, DeploymentKey::Demote) {
        Ok(Some(v)) => v,
        Ok(None) => {
            let v: Vec<String> = Vec::new();
            assert(string_views(v@) =~= seq![]);
            v
        },
        Err(e) => {
            return Err(e);
        },
    };
    let expected_version = match read_setting(t, DeploymentKey::ExpectedVersion) {
        Ok(v) => v,
        Err(e) => {
            return Err(e);
        },
    };
    let expected_license_wording = match read_setting(t, DeploymentKey::ExpectedLicenseWording) {
        Ok(v) => v,
        Err(e) => {
            return Err(e);
        },
    };
    let expected_release_body = match read_setting(t, DeploymentKey::ExpectedReleaseBody) {
        Ok(v) => v,
        Err(e) => {
            return Err(e);
        },
    };
    let scrub_overrides = match read_list(t, DeploymentKey::ScrubOverrides) {
        Ok(v) => v,
        Err(e) => {
            return Err(e);
        },
    };
    let exempt_comment_markers = match read_list(t, DeploymentKey::ExemptCommentMarkers) {
        Ok(Some(v)) => v,
        Ok(None) => {
            let v: Vec<String> = Vec::new();
            assert(string_views(v@) =~= seq![]);
            v
        },
        Err(e) => {
            return Err(e);
        },
    };
    Ok(
        Deployment {
            waiver_authority,
            demote,
            expected_version,
            expected_license_wording,
            expected_release_body,
            scrub_overrides,
            exempt_comment_markers,
        },
    )
}

/// Parses a deployment configuration's TOML text and reads its
/// expectations (see `deployment_from`); text that is not TOML is refused
/// with the parser's message.
pub fn load_deployment(text: &str) -> (r: Result<Deployment, DeploymentError>)
    ensures
        match toml_document(text@) {
            None => r matches Err(DeploymentError::Parse(_)),
            Some(root) => {
                &&& (!(root is Table) ==> r matches Err(DeploymentError::RootNotTable))
                &&& (root is Table ==> (r is Err <==> deployment_fault(root) is Some))
                &&& (root is Table ==> (r matches Err(e) ==> deployment_fault(root) matches Some(k)
                    && setting_refusal(root->Table_0@, k, e)))
                &&& (r matches Ok(d) ==> deployment_read(d, root))
            },
        },
{
    match parse_toml(text) {
        Ok(root) => deployment_from(&root),
        Err(e) => Err(DeploymentError::Parse(toml_error_text(&e))),
    }
}

/// The default input limit, 2 MiB.
pub const DEFAULT_MAX_BYTES: usize = 2097152;

impl Config {
    /// A configuration for `profile` reading `input_format`, with the
    /// default limit and no deployment expectations.
    pub fn with_format(profile: Profile, input_format: InputFormat) -> (c: Config)
        ensures
            c.profile == profile,
            c.input_format == input_format,
            c.limits.max_bytes == DEFAULT_MAX_BYTES,
            c.deployment.expected_version is None,
            c.deployment.expected_license_wording is None,
            c.deployment.expected_release_body is None,
            c.deployment.waiver_authority is None,
            c.deployment.demote@.len() == 0,
            c.deployment.scrub_overrides is None,
            c.deployment.exempt_comment_markers@.len() == 0,
    {
        Config {
            profile,
            input_format,
            limits: Limits { max_bytes: DEFAULT_MAX_BYTES },
            deployment: Deployment {
                waiver_authority: None,
                demote: Vec::new(),
                expected_version: None,
                expected_license_wording: None,
                expected_release_body: None,
                scrub_overrides: None,
                exempt_comment_markers: Vec::new(),
            },
        }
    }
}

/// Why an input was refused.
#[derive(Clone, Debug, PartialEq, Eq)]
pub enum InputRejection {
    /// The input is longer than the configured limit.
    TooLarge { len: usize, limit: usize },
    /// The payload is not UTF-8; valid UTF-8 runs up to this byte.
    InvalidUtf8 { valid_up_to: usize },
    /// The manifest does not parse as TOML; the parser's message.
    ManifestParse(String),
    /// The manifest parses but has no `[package]` table.
    NoPackageTable,
}

/// The fail-closed outcomes of a run.
#[derive(Clone, Debug)]
pub enum AnalysisError {
    Instrumentation(String),
    UnsupportedInput(InputRejection),
    Usage(String),
}

} // verus!
