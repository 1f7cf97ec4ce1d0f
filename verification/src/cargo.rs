//! The package-manifest backend: `version = "X.Y.Z"` inside the `[package]`
//! section, located by the shared section scan.
use vstd::prelude::*;

use crate::scan::{SectionStyle, source_read, source_write, spec_source_read, spec_source_write};
use crate::semver::{SemVersion, VersionError};

verus! {

/// A package manifest bound to a resolved path.  Reading and writing operate
/// on content the caller has loaded; the path is carried for reporting and
/// for the unverified I/O shell.
pub struct CargoFile {
    pub path: String,
}

impl CargoFile {
    pub fn new(path: String) -> (r: Self)
        ensures
            r.path@ == path@,
    {
        CargoFile { path }
    }

    /// Parse the version out of manifest content: the first
    /// `version = "..."` line inside `[package]`, strictly parsed.
    pub fn read(&self, content: &[u8]) -> (r: Result<SemVersion, VersionError>)
        requires
            content@.len() < usize::MAX,
        ensures
            match spec_source_read(SectionStyle::ManifestPackage, content@) {
                Some(v) => r == Ok::<SemVersion, VersionError>(v),
                None => r == Err::<SemVersion, VersionError>(VersionError::ParseError),
            },
    {
        source_read(SectionStyle::ManifestPackage, content)
    }

    /// Rewrite manifest content to hold `v`, replacing only the value span
    /// of the matched line; without a matched line the content is returned
    /// unchanged.
    pub fn write(&self, content: &[u8], v: &SemVersion) -> (r: Vec<u8>)
        requires
            content@.len() < usize::MAX,
        ensures
            r@ == spec_source_write(SectionStyle::ManifestPackage, content@, *v),
    {
        source_write(SectionStyle::ManifestPackage, content, v)
    }
}

} // verus!
