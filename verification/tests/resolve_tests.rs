use python_launcher::resolve::{
    all_executables, filter_python_executables, find_executable, parse_executable_name, Candidate,
};
use python_launcher::version::{DiscoveredVersion, RequestedVersion};

fn cand(version: DiscoveredVersion, path: &str, is_file: bool) -> Candidate {
    Candidate { version, path: path.to_string(), is_file }
}

#[test]
fn test_parse_executable_name() {
    assert_eq!(
        parse_executable_name("python3.6"),
        Some(DiscoveredVersion::Exact(3, 6))
    );
    assert_eq!(
        parse_executable_name("python42.13"),
        Some(DiscoveredVersion::Exact(42, 13))
    );
    assert_eq!(parse_executable_name("python3"), Some(DiscoveredVersion::MajorOnly(3)));
    assert_eq!(parse_executable_name("python"), None);
    assert_eq!(parse_executable_name("python3.6.4"), None);
    assert_eq!(parse_executable_name("ruby2.6"), None);
}

#[test]
fn test_filter_python_executables_keeps_order() {
    let entries = vec![
        ("python3.6".to_string(), "/a/python3.6".to_string(), true),
        ("ruby".to_string(), "/a/ruby".to_string(), true),
        ("python2".to_string(), "/a/python2".to_string(), true),
    ];
    let candidates = filter_python_executables(&entries);
    assert_eq!(candidates.len(), 2);
    assert_eq!(candidates[0].version, DiscoveredVersion::Exact(3, 6));
    assert_eq!(candidates[0].path, "/a/python3.6");
    assert_eq!(candidates[1].version, DiscoveredVersion::MajorOnly(2));
    assert_eq!(candidates[1].path, "/a/python2");
}

#[test]
fn test_resolver_picks_highest_compatible() {
    let dirs = vec![
        vec![cand(DiscoveredVersion::Exact(3, 6), "/a/python3.6", true)],
        vec![cand(DiscoveredVersion::Exact(3, 8), "/b/python3.8", true)],
        vec![cand(DiscoveredVersion::MajorOnly(3), "/c/python3", true)],
    ];
    assert_eq!(
        find_executable(RequestedVersion::MajorOnly(3), &dirs),
        Some("/b/python3.8".to_string())
    );
}

#[test]
fn test_resolver_keeps_scanning_after_exact_hit() {
    // The bare python3 is an exact hit for -3 and ends only its own
    // directory's scan: the higher 3.8 in a later directory still wins.
    let dirs = vec![
        vec![cand(DiscoveredVersion::MajorOnly(3), "/a/python3", true)],
        vec![cand(DiscoveredVersion::Exact(3, 8), "/b/python3.8", true)],
        vec![cand(DiscoveredVersion::Exact(3, 6), "/c/python3.6", true)],
    ];
    assert_eq!(
        find_executable(RequestedVersion::MajorOnly(3), &dirs),
        Some("/b/python3.8".to_string())
    );
}

#[test]
fn test_exact_hit_skips_rest_of_its_directory() {
    // Within one directory an exact hit stops that directory's scan, so
    // a better candidate later in the same listing is never recorded.
    let dirs = vec![vec![
        cand(DiscoveredVersion::MajorOnly(3), "/a/python3", true),
        cand(DiscoveredVersion::Exact(3, 8), "/a/python3.8", true),
    ]];
    assert_eq!(
        find_executable(RequestedVersion::MajorOnly(3), &dirs),
        Some("/a/python3".to_string())
    );
}

#[test]
fn test_exact_hit_never_overwritten_by_later_directory() {
    let dirs = vec![
        vec![cand(DiscoveredVersion::Exact(3, 6), "/a/python3.6", true)],
        vec![cand(DiscoveredVersion::Exact(3, 6), "/b/python3.6", true)],
    ];
    assert_eq!(
        find_executable(RequestedVersion::Exact(3, 6), &dirs),
        Some("/a/python3.6".to_string())
    );
}

#[test]
fn test_resolver_short_circuits_on_exact_hit() {
    let dirs = vec![
        vec![cand(DiscoveredVersion::Exact(3, 6), "/a/python3.6", true)],
        vec![
            cand(DiscoveredVersion::Exact(3, 7), "/b/python3.7", true),
            cand(DiscoveredVersion::Exact(3, 6), "/b/python3.6", true),
        ],
    ];
    // The first directory already satisfies the exact request; later
    // directories never influence the result.
    assert_eq!(
        find_executable(RequestedVersion::Exact(3, 6), &dirs),
        Some("/a/python3.6".to_string())
    );
}

#[test]
fn test_resolver_ignores_non_files() {
    let dirs = vec![vec![
        cand(DiscoveredVersion::Exact(3, 9), "/a/python3.9", false),
        cand(DiscoveredVersion::Exact(3, 6), "/a/python3.6", true),
    ]];
    assert_eq!(
        find_executable(RequestedVersion::Any, &dirs),
        Some("/a/python3.6".to_string())
    );
    let broken = vec![vec![cand(DiscoveredVersion::Exact(3, 9), "/a/python3.9", false)]];
    assert_eq!(find_executable(RequestedVersion::Any, &broken), None);
}

#[test]
fn test_resolver_no_candidates() {
    let dirs: Vec<Vec<Candidate>> = Vec::new();
    assert_eq!(find_executable(RequestedVersion::Any, &dirs), None);
    assert_eq!(find_executable(RequestedVersion::Exact(3, 6), &dirs), None);
}

#[test]
fn test_all_executables_first_occurrence_wins() {
    let dirs = vec![
        vec![cand(DiscoveredVersion::Exact(3, 6), "/a/python3.6", true)],
        vec![cand(DiscoveredVersion::Exact(3, 6), "/b/python3.6", true)],
        vec![cand(DiscoveredVersion::MajorOnly(3), "/b/python3", true)],
    ];
    let table = all_executables(&dirs);
    assert_eq!(table.len(), 2);
    assert_eq!(table[0].0, DiscoveredVersion::Exact(3, 6));
    assert_eq!(table[0].1, "/a/python3.6");
    assert_eq!(table[1].0, DiscoveredVersion::MajorOnly(3));
    assert_eq!(table[1].1, "/b/python3");
}
