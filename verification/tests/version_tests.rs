use maestro::version::{
    is_stable, to_rust_version, to_semantic, version_matches, Stability, Version,
};

fn v(major: u64, minor: u64, patch: u64, pre: Stability) -> Version {
    Version { major, minor, patch, pre }
}

#[test]
fn to_semantic_drops_fourth_segment() {
    assert_eq!(to_semantic("1.2.3.0").unwrap(), "1.2.3");
    assert_eq!(to_semantic("2.10.4.7.9").unwrap(), "2.10.4");
}

#[test]
fn to_semantic_strips_leading_v() {
    assert_eq!(to_semantic("v1.2.3").unwrap(), "1.2.3");
    assert_eq!(to_semantic("v1.2.3.0").unwrap(), "1.2.3");
}

#[test]
fn to_semantic_fails_below_three_segments() {
    assert!(to_semantic("1.2").is_none());
    assert!(to_semantic("7").is_none());
    assert!(to_semantic("").is_none());
    assert!(to_semantic("v").is_none());
}

#[test]
fn to_semantic_identity_on_three_segments() {
    // the idempotence law, on concrete values
    assert_eq!(to_semantic("1.2.3").unwrap(), "1.2.3");
    let once = to_semantic("1.2.3.0").unwrap();
    assert_eq!(to_semantic(&once).unwrap(), once);
}

#[test]
fn to_semantic_v_prefix_agrees() {
    // the v-prefix law, on concrete values
    assert_eq!(to_semantic("v2.0.1"), to_semantic("2.0.1"));
    assert_eq!(to_rust_version("v2.0.1"), to_rust_version("2.0.1"));
}

#[test]
fn to_semantic_keeps_suffix_on_third_segment() {
    assert_eq!(to_semantic("1.2.3-beta1").unwrap(), "1.2.3-beta1");
    assert_eq!(to_semantic("1.2.3.0-beta1").unwrap(), "1.2.3");
}

#[test]
fn parse_version_plain() {
    assert_eq!(to_rust_version("1.2.3.0"), Some(v(1, 2, 3, Stability::Stable)));
    assert_eq!(to_rust_version("10.0.4"), Some(v(10, 0, 4, Stability::Stable)));
    assert_eq!(to_rust_version("v1.0.0"), Some(v(1, 0, 0, Stability::Stable)));
}

#[test]
fn parse_version_prerelease_ranks() {
    assert_eq!(to_rust_version("1.0.0-dev"), Some(v(1, 0, 0, Stability::Dev)));
    assert_eq!(to_rust_version("1.0.0-alpha2"), Some(v(1, 0, 0, Stability::Alpha)));
    assert_eq!(to_rust_version("1.0.0-beta1"), Some(v(1, 0, 0, Stability::Beta)));
    assert_eq!(to_rust_version("1.0.0-RC3"), Some(v(1, 0, 0, Stability::Rc)));
}

#[test]
fn parse_version_failures() {
    assert_eq!(to_rust_version(""), None);
    assert_eq!(to_rust_version("abc"), None);
    assert_eq!(to_rust_version("1.2"), None);
    assert_eq!(to_rust_version("1.x.3"), None);
    assert_eq!(to_rust_version("01.2.3"), None);
    assert_eq!(to_rust_version("1.2.3beta"), None);
}

#[test]
fn matches_caret() {
    assert!(version_matches("^1.0", "1.2.0.0"));
    assert!(version_matches("^1.0", "1.0.0.0"));
    assert!(!version_matches("^1.0", "2.0.0.0"));
    assert!(!version_matches("^1.2", "1.1.9.0"));
}

#[test]
fn matches_caret_zero_major() {
    assert!(version_matches("^0.2.3", "0.2.9.0"));
    assert!(!version_matches("^0.2.3", "0.3.0.0"));
    assert!(version_matches("^0.0.3", "0.0.3.0"));
    assert!(!version_matches("^0.0.3", "0.0.4.0"));
    assert!(version_matches("^0", "0.9.0.0"));
}

#[test]
fn matches_tilde() {
    assert!(version_matches("~1.2", "1.2.9.0"));
    assert!(!version_matches("~1.2", "1.3.0.0"));
    assert!(version_matches("~1", "1.9.0.0"));
    assert!(version_matches("~1.2.3", "1.2.4.0"));
    assert!(!version_matches("~1.2.3", "1.2.2.0"));
}

#[test]
fn matches_comparisons_and_exact() {
    assert!(version_matches(">=1.5", "1.5.0.0"));
    assert!(!version_matches(">1.5", "1.5.0.0"));
    assert!(version_matches("<2.0", "1.9.9.0"));
    assert!(!version_matches("<=1.4", "1.5.0.0"));
    assert!(version_matches("=1.2.3", "1.2.3.0"));
    assert!(version_matches("1.2.3", "1.2.3.0"));
    assert!(!version_matches("1.2.3", "1.2.4.0"));
}

#[test]
fn matches_bare_partials_and_wildcards() {
    assert!(version_matches("*", "3.4.5.0"));
    assert!(version_matches("1.2", "1.2.7.0"));
    assert!(!version_matches("1.2", "1.3.0.0"));
    assert!(version_matches("1.*", "1.9.0.0"));
    assert!(version_matches("1.2.*", "1.2.5.0"));
    assert!(!version_matches("1.2.*", "1.3.0.0"));
}

#[test]
fn matches_disjunction() {
    // the disjunction law, on concrete values
    assert!(version_matches("^1.0 || ^2.0", "2.3.0.0"));
    assert!(version_matches("^1.0 || ^2.0", "1.5.0.0"));
    assert!(!version_matches("^1.0 || ^2.0", "3.0.0.0"));
    assert_eq!(
        version_matches("^1.0 || ^2.0", "2.3.0.0"),
        version_matches("^1.0", "2.3.0.0") || version_matches("^2.0", "2.3.0.0")
    );
}

#[test]
fn matches_ignores_bad_disjuncts() {
    assert!(version_matches("nonsense || ^1.0", "1.1.0.0"));
    assert!(!version_matches("nonsense", "1.1.0.0"));
    assert!(!version_matches("", "1.1.0.0"));
}

#[test]
fn matches_unparseable_version_is_false() {
    assert!(!version_matches("*", "dev-master"));
    assert!(!version_matches("^1.0", ""));
}

#[test]
fn matches_prerelease_ordering() {
    assert!(!version_matches("^1.0.0", "1.0.0-dev"));
    assert!(version_matches(">=1.0.0-dev", "1.0.0-beta"));
    assert!(!version_matches(">=1.0.0-beta", "1.0.0-dev"));
    assert!(version_matches(">=1.0.0-RC", "1.0.0"));
}

#[test]
fn matches_convex_between() {
    // monotonicity within a primitive, on concrete values
    assert!(version_matches("^1.2", "1.2.0.0"));
    assert!(version_matches("^1.2", "1.9.9.0"));
    assert!(version_matches("^1.2", "1.5.0.0"));
}

#[test]
fn stable_filter() {
    assert!(is_stable("1.2.3.0"));
    assert!(!is_stable("1.0.0.0-beta2"));
    assert!(!is_stable("2.0-dev"));
    assert!(!is_stable("1.0.0.0-alpha1"));
    assert!(!is_stable("4.0.0.0-RC2"));
}
