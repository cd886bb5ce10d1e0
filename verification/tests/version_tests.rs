use flint_core::version::{check_flint_version, get_supported_version, skip_decision, skip_reason};

#[test]
fn supported_versions_load_and_newer_ones_are_skipped() {
    let req = get_supported_version().unwrap().to_string();
    assert!(check_flint_version(&req, "1.0.0").is_none());
    assert!(check_flint_version(&req, "0.4.2").is_none());
    // An unparsable version counts as 0.0.0.
    assert!(check_flint_version(&req, "not a version").is_none());
    assert_eq!(
        check_flint_version(">=2.0.0", "not a version").as_deref(),
        Some("requires flint_version 0.0.0, implementation supports 0.0.0")
    );
    // A requirement semver does not accept matches nothing.
    assert!(check_flint_version("not a requirement", "1.0.0").is_some());
    assert_eq!(
        check_flint_version(&req, "2.0.0").as_deref(),
        Some("requires flint_version 2.0.0, implementation supports 2.0.0")
    );
    assert_eq!(skip_reason("1.2.3"), "requires flint_version 1.2.3, implementation supports 1.2.3");
}

#[test]
fn skip_decision_loads_on_match_and_names_the_version_otherwise() {
    assert_eq!(skip_decision(true, "1.0.0"), None);
    assert_eq!(
        skip_decision(false, "2.1.0").as_deref(),
        Some("requires flint_version 2.1.0, implementation supports 2.1.0")
    );
}
