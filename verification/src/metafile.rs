//! The plugin-metadata backend: the version lives under the top-level
//! `version` key of a YAML document.  The document is handled as a generic
//! tree by an outside parser: reading takes the key's string, writing sets
//! it and re-serializes the whole tree.  Unlike the line-oriented backends
//! this one does not preserve unrelated bytes — re-serialization may
//! reformat them — but it does preserve the rest of the tree: every
//! top-level entry other than `version` reads back unchanged.
use vstd::prelude::*;

use crate::semver::{SemVersion, VersionError, lemma_parse_of_render, parse_version,
    render_version, spec_parse_version, spec_render};

verus! {

/// The string under the top-level `version` key of the YAML document `s`,
/// if `s` parses as a document whose top level holds that key as a string.
/// The outside parser computes this from the bytes alone.
pub uninterp spec fn yaml_version_of(s: Seq<u8>) -> Option<Seq<u8>>;

/// Whether the bytes parse as a YAML document whose top level is a mapping
/// and whose tree, with the `version` key set to a plain scalar,
/// re-serializes.  This is exactly the set of inputs on which a version
/// write goes through; the outside parser and emitter decide it from the
/// bytes alone.
pub uninterp spec fn yaml_mapping_ok(s: Seq<u8>) -> bool;

/// The document's top-level tree with the `version` key removed, in a
/// canonical encoding: what a write must carry over unchanged.  A function
/// of the bytes alone.
pub uninterp spec fn yaml_rest_of(s: Seq<u8>) -> Seq<u8>;

/// Relies on serde_norway::from_slice, Value::get and Value::as_str: parse
/// the document and hand out the string under the top-level `version` key,
/// which is exactly what `yaml_version_of` names.
#[verifier::external_body]
fn yaml_read_version(content: &[u8]) -> (r: Option<Vec<u8>>)
    ensures
        r matches Some(v) ==> yaml_version_of(content@) == Some(v@),
        r is None ==> yaml_version_of(content@) is None,
{
    let value: serde_norway::Value = serde_norway::from_slice(content).ok()?;
    let s = value.get("version")?.as_str()?;
    Some(s.as_bytes().to_vec())
}

/// Relies on serde_norway::from_slice, Value::as_mapping_mut,
/// Mapping::insert and serde_norway::to_string: parse the document, set the
/// top-level `version` key to the given string and re-serialize.
///
/// It succeeds exactly on the inputs `yaml_mapping_ok` names: the parse,
/// the mapping access and the emission are each deterministic in the bytes,
/// and the inserted value is always a plain string scalar.  On success the
/// output re-reads as follows.  The caller only passes canonical `X.Y.Z`
/// text; the emitter writes such a scalar so that it parses back as the
/// same string (two dots never read as a number), so the output's
/// `yaml_version_of` is the string that was set.  `Mapping::insert`
/// replaces only the `version` entry, and the emitter/parser pair
/// round-trips a parsed tree, so every other top-level entry re-reads
/// unchanged: the output's `yaml_rest_of` equals the input's.
#[verifier::external_body]
fn yaml_write_version(content: &[u8], version: &[u8]) -> (r: Option<Vec<u8>>)
    requires
        spec_parse_version(version@) is Some,
    ensures
        r is Some <==> yaml_mapping_ok(content@),
        r matches Some(out) ==> yaml_version_of(out@) == Some(version@),
        r matches Some(out) ==> yaml_rest_of(out@) == yaml_rest_of(content@),
{
    let mut value: serde_norway::Value = serde_norway::from_slice(content).ok()?;
    let text = std::str::from_utf8(version).ok()?.to_string();
    let map = value.as_mapping_mut()?;
    map.insert(
        serde_norway::Value::String("version".to_string()),
        serde_norway::Value::String(text),
    );
    serde_norway::to_string(&value).ok().map(String::into_bytes)
}

/// What a read of metadata content yields: the strict parse of the string
/// under the `version` key.
pub open spec fn spec_metafile_read(s: Seq<u8>) -> Option<SemVersion> {
    match yaml_version_of(s) {
        Some(vs) => spec_parse_version(vs),
        None => None,
    }
}

/// A plugin-metadata source bound to a resolved path.
pub struct YamlMetafile {
    pub path: String,
}

impl YamlMetafile {
    pub fn new(path: String) -> (r: Self)
        ensures
            r.path@ == path@,
    {
        YamlMetafile { path }
    }

    /// Read the `version` key; a missing or non-string key, or a value that
    /// is not canonical `X.Y.Z`, is a parse error.
    pub fn read(&self, content: &[u8]) -> (r: Result<SemVersion, VersionError>)
        ensures
            match spec_metafile_read(content@) {
                Some(v) => r == Ok::<SemVersion, VersionError>(v),
                None => r == Err::<SemVersion, VersionError>(VersionError::ParseError),
            },
    {
        match yaml_read_version(content) {
            Some(vs) => match parse_version(vs.as_slice()) {
                Some(v) => Ok(v),
                None => Err(VersionError::ParseError),
            },
            None => Err(VersionError::ParseError),
        }
    }

    /// Rewrite the document with its `version` key set to `v`.  Succeeds
    /// exactly on content whose top level is a writable mapping.  ROUND
    /// TRIP: on success, reading the produced content yields exactly `v` —
    /// the write-read law of this backend, stated here because writing
    /// re-serializes the tree rather than patching bytes.  TREE
    /// PRESERVATION: the rest of the top-level tree re-reads unchanged.
    pub fn write(&self, content: &[u8], v: &SemVersion) -> (r: Result<Vec<u8>, VersionError>)
        ensures
            r is Ok <==> yaml_mapping_ok(content@),
            r matches Ok(out) ==> yaml_version_of(out@) == Some(spec_render(*v))
                && spec_metafile_read(out@) == Some(*v),
            r matches Ok(out) ==> yaml_rest_of(out@) == yaml_rest_of(content@),
            r is Err ==> r == Err::<Vec<u8>, VersionError>(VersionError::ParseError),
    {
        let text = render_version(v);
        proof {
            lemma_parse_of_render(*v);
        }
        match yaml_write_version(content, text.as_slice()) {
            Some(out) => {
                proof {
                    lemma_parse_of_render(*v);
                }
                Ok(out)
            },
            None => Err(VersionError::ParseError),
        }
    }
}

} // verus!
