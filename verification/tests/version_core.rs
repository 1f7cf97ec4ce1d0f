use versync::semver::{
    bump, compute_target, min_version_present, parse_explicit, parse_version, render_version,
    BumpKind, SemVersion, VersionError,
};

fn v(major: u64, minor: u64, patch: u64) -> SemVersion {
    SemVersion { major, minor, patch }
}

#[test]
fn render_canonical() {
    assert_eq!(render_version(&v(1, 2, 0)), b"1.2.0".to_vec());
    assert_eq!(render_version(&v(0, 0, 0)), b"0.0.0".to_vec());
    assert_eq!(render_version(&v(10, 250, 3)), b"10.250.3".to_vec());
    assert_eq!(
        render_version(&v(u64::MAX, 0, 1)),
        b"18446744073709551615.0.1".to_vec()
    );
}

#[test]
fn parse_accepts_canonical() {
    assert_eq!(parse_version(b"1.2.3"), Some(v(1, 2, 3)));
    assert_eq!(parse_version(b"0.1.0"), Some(v(0, 1, 0)));
    assert_eq!(parse_version(b"18446744073709551615.0.1"), Some(v(u64::MAX, 0, 1)));
}

#[test]
fn parse_rejects_everything_else() {
    assert_eq!(parse_version(b""), None);
    assert_eq!(parse_version(b"1.2"), None);
    assert_eq!(parse_version(b"1.2.3.4"), None);
    assert_eq!(parse_version(b"01.2.3"), None);
    assert_eq!(parse_version(b"1.2.x"), None);
    assert_eq!(parse_version(b"1..3"), None);
    assert_eq!(parse_version(b"1.2.3 "), None);
    assert_eq!(parse_version(b"v1.2.3"), None);
    // one past u64::MAX in the patch component
    assert_eq!(parse_version(b"1.0.18446744073709551616"), None);
}

#[test]
fn parse_render_round_trip() {
    for ver in [v(0, 0, 0), v(1, 2, 3), v(99, 0, 100), v(u64::MAX, 1, 2)] {
        assert_eq!(parse_version(&render_version(&ver)), Some(ver));
    }
}

#[test]
fn explicit_version_fatal_on_malformed() {
    assert_eq!(parse_explicit(b"1.2.3"), Ok(v(1, 2, 3)));
    assert_eq!(
        parse_explicit(b"not-a-version"),
        Err(VersionError::InvalidExplicitVersion)
    );
    assert_eq!(parse_explicit(b"1.2"), Err(VersionError::InvalidExplicitVersion));
}

#[test]
fn bump_semantics() {
    // bumping 1.4.7 by Major, Minor and Patch
    assert_eq!(bump(&v(1, 4, 7), BumpKind::Major), v(2, 0, 0));
    assert_eq!(bump(&v(1, 4, 7), BumpKind::Minor), v(1, 5, 0));
    assert_eq!(bump(&v(1, 4, 7), BumpKind::Patch), v(1, 4, 8));
    assert_eq!(bump(&v(1, 4, 7), BumpKind::Keep), v(1, 4, 7));
}

#[test]
fn minimum_selection() {
    // sources reporting 1.2.0, 1.1.0 and one absent: baseline is 1.1.0
    let versions = vec![Some(v(1, 2, 0)), Some(v(1, 1, 0)), None];
    assert_eq!(min_version_present(&versions), Some(v(1, 1, 0)));
}

#[test]
fn minimum_of_nothing_is_absent() {
    assert_eq!(min_version_present(&vec![]), None);
    assert_eq!(min_version_present(&vec![None, None]), None);
}

#[test]
fn minimum_orders_lexicographically() {
    let versions = vec![Some(v(2, 0, 0)), Some(v(1, 9, 9)), Some(v(1, 10, 0))];
    assert_eq!(min_version_present(&versions), Some(v(1, 9, 9)));
}

#[test]
fn target_defaults_to_initial_version() {
    assert_eq!(compute_target(&vec![], None, BumpKind::Keep), Some(v(0, 1, 0)));
    assert_eq!(compute_target(&vec![None], None, BumpKind::Patch), Some(v(0, 1, 1)));
}

#[test]
fn target_prefers_explicit_assignment() {
    let versions = vec![Some(v(1, 1, 0))];
    assert_eq!(
        compute_target(&versions, Some(v(9, 9, 9)), BumpKind::Keep),
        Some(v(9, 9, 9))
    );
}

#[test]
fn target_bump_overflow_is_refused() {
    let versions = vec![Some(v(u64::MAX, 0, 0))];
    assert_eq!(compute_target(&versions, None, BumpKind::Major), None);
    assert_eq!(compute_target(&versions, None, BumpKind::Patch), Some(v(u64::MAX, 0, 1)));
}

#[test]
fn ordering_is_component_wise() {
    assert!(v(1, 9, 9).le(&v(2, 0, 0)));
    assert!(v(1, 2, 3).le(&v(1, 2, 3)));
    assert!(!v(1, 2, 4).le(&v(1, 2, 3)));
    assert!(v(1, 2, 3).le(&v(1, 10, 0)));
}
