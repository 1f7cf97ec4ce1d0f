use versync::cargo::CargoFile;
use versync::cmake::CmakeFile;
use versync::conan::ConanFile;
use versync::export_header::ExportHeaderFile;
use versync::metafile::YamlMetafile;
use versync::semver::{compute_target, BumpKind, SemVersion, VersionError};

fn v(major: u64, minor: u64, patch: u64) -> SemVersion {
    SemVersion { major, minor, patch }
}

const MANIFEST: &[u8] = b"[package]\nname = \"demo\"\nversion = \"1.2.0\"\nedition = \"2021\"\n\n[dependencies]\nserde = \"1\"\n";

#[test]
fn manifest_read_in_package_section() {
    let f = CargoFile::new("Cargo.toml".to_string());
    assert_eq!(f.read(MANIFEST), Ok(v(1, 2, 0)));
}

#[test]
fn manifest_ignores_version_outside_section() {
    let f = CargoFile::new("Cargo.toml".to_string());
    let content = b"version = \"9.9.9\"\n[package]\nversion = \"1.0.0\"\n".to_vec();
    assert_eq!(f.read(&content), Ok(v(1, 0, 0)));
    let other = b"[dependencies]\nversion = \"9.9.9\"\n".to_vec();
    assert_eq!(f.read(&other), Err(VersionError::ParseError));
}

#[test]
fn manifest_round_trip() {
    let f = CargoFile::new("Cargo.toml".to_string());
    let out = f.write(MANIFEST, &v(3, 4, 5));
    assert_eq!(f.read(&out), Ok(v(3, 4, 5)));
}

#[test]
fn manifest_content_preservation() {
    // patching inside [package] must not alter any line outside it
    let f = CargoFile::new("Cargo.toml".to_string());
    let out = f.write(MANIFEST, &v(2, 0, 0));
    let expected = b"[package]\nname = \"demo\"\nversion = \"2.0.0\"\nedition = \"2021\"\n\n[dependencies]\nserde = \"1\"\n".to_vec();
    assert_eq!(out, expected);
}

#[test]
fn manifest_no_op_write() {
    let f = CargoFile::new("Cargo.toml".to_string());
    let out = f.write(MANIFEST, &v(1, 2, 0));
    assert_eq!(out, MANIFEST.to_vec());
}

#[test]
fn manifest_crlf_line_still_matches() {
    let f = CargoFile::new("Cargo.toml".to_string());
    let content = b"[package]\r\nversion = \"1.2.0\"\r\n".to_vec();
    assert_eq!(f.read(&content), Ok(v(1, 2, 0)));
}

#[test]
fn manifest_first_match_wins() {
    let f = CargoFile::new("Cargo.toml".to_string());
    let content = b"[package]\nversion = \"1.0.0\"\nversion = \"2.0.0\"\n".to_vec();
    let out = f.write(&content, &v(5, 0, 0));
    assert_eq!(out, b"[package]\nversion = \"5.0.0\"\nversion = \"2.0.0\"\n".to_vec());
}

const CONANFILE: &[u8] = b"import os\n\nclass DemoConan(ConanFile):\n    name = \"demo\"\n    version = \"1.2.0\"\n    license = \"MIT\"\n";

#[test]
fn registry_read_inside_class() {
    let f = ConanFile::new("conanfile.py".to_string());
    assert_eq!(f.read(CONANFILE), Ok(v(1, 2, 0)));
}

#[test]
fn registry_requires_base_type_reference() {
    let f = ConanFile::new("conanfile.py".to_string());
    let content = b"class Other(Thing):\n    version = \"1.2.0\"\n".to_vec();
    assert_eq!(f.read(&content), Err(VersionError::ParseError));
}

#[test]
fn registry_nested_class_exits_section() {
    let f = ConanFile::new("conanfile.py".to_string());
    let content =
        b"class DemoConan(ConanFile):\n    pass\nclass Helper(object):\n    version = \"3.3.3\"\n"
            .to_vec();
    assert_eq!(f.read(&content), Err(VersionError::ParseError));
}

#[test]
fn registry_round_trip_and_preservation() {
    let f = ConanFile::new("conanfile.py".to_string());
    let out = f.write(CONANFILE, &v(2, 0, 1));
    assert_eq!(
        out,
        b"import os\n\nclass DemoConan(ConanFile):\n    name = \"demo\"\n    version = \"2.0.1\"\n    license = \"MIT\"\n"
            .to_vec()
    );
    assert_eq!(f.read(&out), Ok(v(2, 0, 1)));
}

#[test]
fn registry_no_op_write() {
    let f = ConanFile::new("conanfile.py".to_string());
    assert_eq!(f.write(CONANFILE, &v(1, 2, 0)), CONANFILE.to_vec());
}

const CMAKELISTS: &[u8] = b"cmake_minimum_required(VERSION 3.20)\nproject(Demo\n    LANGUAGES CXX\n    VERSION 1.1.0)\nadd_library(demo demo.cc)\n";

#[test]
fn build_descriptor_read() {
    let f = CmakeFile::new("CMakeLists.txt".to_string());
    assert_eq!(f.read(CMAKELISTS), Ok(v(1, 1, 0)));
}

#[test]
fn build_descriptor_is_case_insensitive() {
    let f = CmakeFile::new("CMakeLists.txt".to_string());
    let content = b"PROJECT(demo Version 2.5.7)\n".to_vec();
    assert_eq!(f.read(&content), Ok(v(2, 5, 7)));
}

#[test]
fn build_descriptor_needs_project_header() {
    let f = CmakeFile::new("CMakeLists.txt".to_string());
    let content = b"set(X VERSION 1.2.3)\n".to_vec();
    assert_eq!(f.read(&content), Err(VersionError::ParseError));
}

#[test]
fn build_descriptor_write_replaces_digits_only() {
    let f = CmakeFile::new("CMakeLists.txt".to_string());
    let out = f.write(CMAKELISTS, &v(1, 1, 1));
    assert_eq!(
        out,
        b"cmake_minimum_required(VERSION 3.20)\nproject(Demo\n    LANGUAGES CXX\n    VERSION 1.1.1)\nadd_library(demo demo.cc)\n"
            .to_vec()
    );
    assert_eq!(f.read(&out), Ok(v(1, 1, 1)));
}

#[test]
fn build_descriptor_no_op_write() {
    let f = CmakeFile::new("CMakeLists.txt".to_string());
    assert_eq!(f.write(CMAKELISTS, &v(1, 1, 0)), CMAKELISTS.to_vec());
}

const HEADER: &[u8] = b"#pragma once\n\n#define ACME_VERSION_MAJOR 1\n#define ACME_VERSION_MINOR 4\n#define ACME_VERSION_PATCH 7\n";

#[test]
fn header_prefix_inference_determinism() {
    // a header containing only the ACME macros infers ACME and the exact values
    let f = ExportHeaderFile::new("version.h".to_string());
    assert_eq!(f.detect_macro_prefix(HEADER), Ok(b"ACME".to_vec()));
    assert_eq!(f.read(HEADER), Ok(v(1, 4, 7)));
}

#[test]
fn header_ambiguous_prefix_resolution() {
    // FOO and BAR both define macros; the extra FOO_VERSION occurrence
    // gives FOO the higher score
    let content = b"#define FOO_VERSION_MAJOR 1\n#define FOO_VERSION_MINOR 2\n#define FOO_VERSION_PATCH 3\n#define BAR_VERSION_MAJOR 9\n#define BAR_VERSION_MINOR 9\n#define BAR_VERSION_PATCH 9\n#define FOO_VERSION \"1.2.3\"\n".to_vec();
    let f = ExportHeaderFile::new("version.h".to_string());
    assert_eq!(f.detect_macro_prefix(&content), Ok(b"FOO".to_vec()));
    assert_eq!(f.read(&content), Ok(v(1, 2, 3)));
}

#[test]
fn header_equal_scores_break_lexicographically() {
    let content = b"#define BBB_VERSION_MAJOR 9\n#define BBB_VERSION_MINOR 9\n#define BBB_VERSION_PATCH 9\n#define AAA_VERSION_MAJOR 1\n#define AAA_VERSION_MINOR 2\n#define AAA_VERSION_PATCH 3\n".to_vec();
    let f = ExportHeaderFile::new("version.h".to_string());
    assert_eq!(f.detect_macro_prefix(&content), Ok(b"AAA".to_vec()));
    assert_eq!(f.read(&content), Ok(v(1, 2, 3)));
}

#[test]
fn header_forbidden_prefixes_are_ignored() {
    let f = ExportHeaderFile::new("version.h".to_string());
    let content = b"#define DEBUG_VERSION_MAJOR 1\n#define DEBUG_VERSION_MINOR 2\n#define DEBUG_VERSION_PATCH 3\n".to_vec();
    assert_eq!(f.read(&content), Err(VersionError::ParseError));
    assert!(f.is_valid_macro_prefix(b"ACME"));
    assert!(f.is_valid_macro_prefix(b"MY_LIB"));
    assert!(!f.is_valid_macro_prefix(b"WIN32"));
    assert!(!f.is_valid_macro_prefix(b"__"));
    assert!(!f.is_valid_macro_prefix(b"A"));
    assert!(!f.is_valid_macro_prefix(b"acme"));
}

#[test]
fn header_explicit_prefix_overrides_inference() {
    let f = ExportHeaderFile {
        path: "version.h".to_string(),
        macro_prefix: Some(b"BAR".to_vec()),
    };
    let content =
        b"#define FOO_VERSION_MAJOR 1\n#define FOO_VERSION_MINOR 1\n#define FOO_VERSION_PATCH 1\n#define BAR_VERSION_MAJOR 7\n#define BAR_VERSION_MINOR 8\n#define BAR_VERSION_PATCH 9\n"
            .to_vec();
    assert_eq!(f.read(&content), Ok(v(7, 8, 9)));
}

#[test]
fn header_write_keeps_spacing_and_suffixes() {
    let f = ExportHeaderFile::new("version.h".to_string());
    let content =
        b"#  define ACME_VERSION_MAJOR   1 // major\n#define ACME_VERSION_MINOR 4\n#define ACME_VERSION_PATCH 7\n"
            .to_vec();
    let out = f.write(&content, &v(2, 0, 0)).unwrap();
    assert_eq!(
        out,
        b"#  define ACME_VERSION_MAJOR   2 // major\n#define ACME_VERSION_MINOR 0\n#define ACME_VERSION_PATCH 0\n"
            .to_vec()
    );
    assert_eq!(f.read(&out), Ok(v(2, 0, 0)));
}

#[test]
fn header_round_trip() {
    let f = ExportHeaderFile::new("version.h".to_string());
    let out = f.write(HEADER, &v(10, 20, 30)).unwrap();
    assert_eq!(f.read(&out), Ok(v(10, 20, 30)));
}

#[test]
fn header_no_op_write() {
    let f = ExportHeaderFile::new("version.h".to_string());
    assert_eq!(f.write(HEADER, &v(1, 4, 7)).unwrap(), HEADER.to_vec());
}

#[test]
fn header_missing_macro_left_unpatched() {
    // a header with only two of the three macros: the write patches what
    // is there and the result no longer reads back fully
    let f = ExportHeaderFile::new("version.h".to_string());
    let content = b"#define ACME_VERSION_MAJOR 1\n#define ACME_VERSION_MINOR 4\n".to_vec();
    assert_eq!(f.read(&content), Err(VersionError::ParseError));
    let out = f.write(&content, &v(2, 0, 0)).unwrap();
    assert_eq!(out, b"#define ACME_VERSION_MAJOR 2\n#define ACME_VERSION_MINOR 0\n".to_vec());
}

#[test]
fn header_no_macros_is_an_error() {
    let f = ExportHeaderFile::new("version.h".to_string());
    let content = b"#pragma once\nint x;\n".to_vec();
    assert_eq!(f.read(&content), Err(VersionError::ParseError));
    assert_eq!(f.write(&content, &v(1, 0, 0)), Err(VersionError::ParseError));
}

const METAFILE: &[u8] = b"name: demo\nversion: \"1.2.0\"\nauthor: someone\n";

#[test]
fn metafile_read_version_key() {
    let f = YamlMetafile::new("meta.yml".to_string());
    assert_eq!(f.read(METAFILE), Ok(v(1, 2, 0)));
}

#[test]
fn metafile_missing_or_non_string_key_is_parse_error() {
    let f = YamlMetafile::new("meta.yml".to_string());
    assert_eq!(f.read(b"name: demo\n"), Err(VersionError::ParseError));
    assert_eq!(f.read(b"version: 7\n"), Err(VersionError::ParseError));
    assert_eq!(f.read(b"version: [1, 2]\n"), Err(VersionError::ParseError));
}

#[test]
fn metafile_round_trip() {
    let f = YamlMetafile::new("meta.yml".to_string());
    let out = f.write(METAFILE, &v(4, 5, 6)).unwrap();
    assert_eq!(f.read(&out), Ok(v(4, 5, 6)));
}

#[test]
fn metafile_write_keeps_other_keys() {
    let f = YamlMetafile::new("meta.yml".to_string());
    let out = f.write(METAFILE, &v(4, 5, 6)).unwrap();
    let text = String::from_utf8(out).unwrap();
    assert!(text.contains("name: demo"));
    assert!(text.contains("author: someone"));
}

#[test]
fn metafile_write_fails_without_a_mapping() {
    let f = YamlMetafile::new("meta.yml".to_string());
    // a top-level scalar, a top-level list, and malformed input all refuse
    assert_eq!(
        f.write(b"just a scalar\n", &v(1, 0, 0)),
        Err(VersionError::ParseError)
    );
    assert_eq!(f.write(b"- a\n- b\n", &v(1, 0, 0)), Err(VersionError::ParseError));
    assert_eq!(f.write(b"a: [1,\n", &v(1, 0, 0)), Err(VersionError::ParseError));
}

#[test]
fn end_to_end_scenario() {
    // manifest 1.2.0 and build descriptor 1.1.0, bump-patch: both end at
    // 1.1.1 with unrelated content untouched
    let cargo = CargoFile::new("Cargo.toml".to_string());
    let cmake = CmakeFile::new("CMakeLists.txt".to_string());
    let versions = vec![
        cargo.read(MANIFEST).ok(),
        cmake.read(CMAKELISTS).ok(),
    ];
    let target = compute_target(&versions, None, BumpKind::Patch).unwrap();
    assert_eq!(target, v(1, 1, 1));
    let new_manifest = cargo.write(MANIFEST, &target);
    let new_cmake = cmake.write(CMAKELISTS, &target);
    assert_eq!(
        new_manifest,
        b"[package]\nname = \"demo\"\nversion = \"1.1.1\"\nedition = \"2021\"\n\n[dependencies]\nserde = \"1\"\n"
            .to_vec()
    );
    assert_eq!(
        new_cmake,
        b"cmake_minimum_required(VERSION 3.20)\nproject(Demo\n    LANGUAGES CXX\n    VERSION 1.1.1)\nadd_library(demo demo.cc)\n"
            .to_vec()
    );
    assert_eq!(cargo.read(&new_manifest), Ok(v(1, 1, 1)));
    assert_eq!(cmake.read(&new_cmake), Ok(v(1, 1, 1)));
}
