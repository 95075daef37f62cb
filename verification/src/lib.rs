//! Per-directory shell environments: snapshots of a process environment and
//! the minimal set of changes that leads from one snapshot to another, with
//! the configuration record and the version of the tool around them.

use vstd::prelude::*;

pub mod config;
pub mod env;

verus! {

/// The major version number of this crate.
pub const VERSION_MAJOR: &'static str = "0";

/// The minor version number of this crate.
pub const VERSION_MINOR: &'static str = "1";

/// The patch level of this crate.
pub const VERSION_PATCH: &'static str = "0";

/// The pre-release tag of this crate; empty, since this is a release.
pub const VERSION_PRE: &'static str = "";

/// The version of this crate, part by part.
pub struct VersionInfo {
    pub major: String,
    pub minor: String,
    pub patch: String,
    /// The pre-release tag; present and empty for a release.
    pub pre_release: Option<String>,
}

/// The version that this crate was built as.
pub fn version() -> (info: VersionInfo)
    ensures
        info.major@ == VERSION_MAJOR@,
        info.minor@ == VERSION_MINOR@,
        info.patch@ == VERSION_PATCH@,
        info.pre_release matches Some(tag) && tag@ == VERSION_PRE@,
{
    VersionInfo {
        major: VERSION_MAJOR.to_owned(),
        minor: VERSION_MINOR.to_owned(),
        patch: VERSION_PATCH.to_owned(),
        pre_release: Some(VERSION_PRE.to_owned()),
    }
}

} // verus!
