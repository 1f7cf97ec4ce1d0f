//! The package-registry backend: `version = "X.Y.Z"` inside a class body
//! whose declaration references `ConanFile`, located by the shared section
//! scan with the class-header grammar.
use vstd::prelude::*;

use crate::scan::{SectionStyle, source_read, source_write, spec_source_read, spec_source_write};
use crate::semver::{SemVersion, VersionError};

verus! {

/// A registry descriptor bound to a resolved path.
pub struct ConanFile {
    pub path: String,
}

impl ConanFile {
    pub fn new(path: String) -> (r: Self)
        ensures
            r.path@ == path@,
    {
        ConanFile { path }
    }

    /// Parse the version out of descriptor content: the first
    /// `version = "..."` line inside the tracked class body.
    pub fn read(&self, content: &[u8]) -> (r: Result<SemVersion, VersionError>)
        requires
            content@.len() < usize::MAX,
        ensures
            match spec_source_read(SectionStyle::RegistryClass, content@) {
                Some(v) => r == Ok::<SemVersion, VersionError>(v),
                None => r == Err::<SemVersion, VersionError>(VersionError::ParseError),
            },
    {
        source_read(SectionStyle::RegistryClass, content)
    }

    /// Rewrite descriptor content to hold `v`, replacing only the value span
    /// of the matched line.
    pub fn write(&self, content: &[u8], v: &SemVersion) -> (r: Vec<u8>)
        requires
            content@.len() < usize::MAX,
        ensures
            r@ == spec_source_write(SectionStyle::RegistryClass, content@, *v),
    {
        source_write(SectionStyle::RegistryClass, content, v)
    }
}

} // verus!
