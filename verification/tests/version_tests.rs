use python_launcher::version::{DiscoveredVersion, RequestedVersion, VersionMatch};

#[test]
fn test_parse_round_trip() {
    for fragment in ["3", "3.6", "42.13", "0", "0.0", "10.0"] {
        let parsed = RequestedVersion::parse(fragment).unwrap();
        assert_eq!(parsed.format(), fragment);
    }
}

#[test]
fn test_parse_rejects_bad_fragments() {
    assert_eq!(RequestedVersion::parse("3.6.4"), None);
    assert_eq!(RequestedVersion::parse("abc"), None);
    assert_eq!(RequestedVersion::parse("3."), None);
    assert_eq!(RequestedVersion::parse(".6"), None);
    assert_eq!(RequestedVersion::parse("3a"), None);
}

#[test]
fn test_parse_empty_is_any() {
    assert_eq!(RequestedVersion::parse(""), Some(RequestedVersion::Any));
}

#[test]
fn test_parse_forms() {
    assert_eq!(RequestedVersion::parse("3"), Some(RequestedVersion::MajorOnly(3)));
    assert_eq!(RequestedVersion::parse("3.6"), Some(RequestedVersion::Exact(3, 6)));
    assert_eq!(
        RequestedVersion::parse("42.13"),
        Some(RequestedVersion::Exact(42, 13))
    );
}

#[test]
fn test_compatibility() {
    assert_eq!(
        DiscoveredVersion::Exact(3, 6).matches(&RequestedVersion::MajorOnly(3)),
        VersionMatch::Loosely
    );
    assert_eq!(
        DiscoveredVersion::MajorOnly(3).matches(&RequestedVersion::MajorOnly(3)),
        VersionMatch::Exactly
    );
    assert_eq!(
        DiscoveredVersion::Exact(3, 6).matches(&RequestedVersion::Exact(3, 7)),
        VersionMatch::NotAtAll
    );
    assert_eq!(
        DiscoveredVersion::MajorOnly(3).matches(&RequestedVersion::Exact(3, 6)),
        VersionMatch::NotAtAll
    );
    assert_eq!(
        DiscoveredVersion::Exact(3, 6).matches(&RequestedVersion::Exact(3, 6)),
        VersionMatch::Exactly
    );
    // Anything loosely satisfies an unconstrained request.
    assert_eq!(
        DiscoveredVersion::Exact(2, 7).matches(&RequestedVersion::Any),
        VersionMatch::Loosely
    );
    assert_eq!(
        DiscoveredVersion::MajorOnly(2).matches(&RequestedVersion::Any),
        VersionMatch::Loosely
    );
}

#[test]
fn test_version_ordering() {
    let v38 = DiscoveredVersion::Exact(3, 8);
    let v39 = DiscoveredVersion::Exact(3, 9);
    let v3 = DiscoveredVersion::MajorOnly(3);
    let v2 = DiscoveredVersion::MajorOnly(2);
    assert!(v38.less_than(&v39));
    assert!(v3.less_than(&v38));
    assert!(v2.less_than(&v3));
    assert!(!v39.less_than(&v38));
    assert!(!v38.less_than(&v38));
}

#[test]
fn test_format_discovered_shows_absent_minor_as_zero() {
    assert_eq!(DiscoveredVersion::MajorOnly(3).format(), "3.0");
    assert_eq!(DiscoveredVersion::Exact(3, 6).format(), "3.6");
}
