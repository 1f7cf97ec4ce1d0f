//! A multi-format version synchronization engine: each supported file format
//! gets a byte-exact micro-parser that locates the embedded semantic version,
//! and a patcher that replaces only the version token, leaving unrelated
//! bytes untouched.  Reconciliation reads every present source, computes one
//! target version, and rewrites each source.
pub mod args;
pub mod cargo;
pub mod cmake;
pub mod compilers;
pub mod conan;
pub mod export_header;
pub mod hexdump;
pub mod lit;
pub mod scan;
pub mod metafile;
pub mod semver;
pub mod text;

pub use semver::{BumpKind, SemVersion, VersionError};
