//! What rule evaluation produces: hits against the compiled policy.

use std::ops::Range;
use vstd::prelude::*;
use crate::policy::PolicyPackage;

verus! {

/// One raw rule hit: the rule's index in the package and the byte span of
/// the prepared text it covers.
#[derive(Debug)]
pub struct Hit {
    pub rule: usize,
    pub span: Range<usize>,
    /// Report as a candidate whatever the rule's tier.
    pub force_candidate: bool,
    /// Report as a coverage hint whatever the rule's tier.
    pub force_hint: bool,
}

/// A hit of rule `rule` over `[start, end)` with no tier override.
pub open spec fn plain_hit(rule: usize, start: usize, end: usize) -> Hit {
    Hit { rule, span: Range { start, end }, force_candidate: false, force_hint: false }
}

impl Hit {
    pub fn new(rule: usize, span: Range<usize>) -> (h: Hit)
        ensures
            h == plain_hit(rule, span.start, span.end),
    {
        Hit { rule, span, force_candidate: false, force_hint: false }
    }
}

/// The policy the rule families evaluate against.
#[derive(Debug)]
pub struct CompiledPolicy {
    pub pkg: PolicyPackage,
}

} // verus!
