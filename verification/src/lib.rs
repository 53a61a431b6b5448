//! Outbound-prose linting: input preparation, the policy package model, and
//! the structural rule families that run beside the shared matching engines.

pub mod config;
pub mod engine;
pub mod extract;
pub mod input;
pub mod policy;
pub mod rules;
pub mod text;
pub mod tomlv;

pub use tomlv::TomlValue;
pub use config::{AnalysisError, Config, Deployment, Field, InputFormat, InputRejection, Limits, Profile, Stance};

use vstd::prelude::*;

verus! {

} // verus!
