use python_launcher::cli::{
    activated_venv_executable, list_executables, version_from_flag, Action,
};
use python_launcher::resolve::Candidate;
use python_launcher::version::{DiscoveredVersion, RequestedVersion};

fn cand(version: DiscoveredVersion, path: &str, is_file: bool) -> Candidate {
    Candidate { version, path: path.to_string(), is_file }
}

#[test]
fn test_version_from_flag() {
    assert!(version_from_flag("-S").is_none());
    assert!(version_from_flag("--something").is_none());
    assert_eq!(version_from_flag("-3"), Some(RequestedVersion::MajorOnly(3)));
    assert_eq!(version_from_flag("-3.6"), Some(RequestedVersion::Exact(3, 6)));
    assert_eq!(version_from_flag("-42.13"), Some(RequestedVersion::Exact(42, 13)));
    assert!(version_from_flag("-3.6.4").is_none());
}

#[test]
fn test_virtual_env_executable() {
    assert_eq!(activated_venv_executable(&None), None);
    assert_eq!(
        activated_venv_executable(&Some("/some/path".to_string())),
        Some("/some/path/bin/python".to_string())
    );
    // A trailing separator is not doubled, and an empty root gives a
    // relative path.
    assert_eq!(
        activated_venv_executable(&Some("/some/path/".to_string())),
        Some("/some/path/bin/python".to_string())
    );
    assert_eq!(
        activated_venv_executable(&Some(String::new())),
        Some("bin/python".to_string())
    );
}

#[test]
fn test_list_executables_empty_fails() {
    let empty: Vec<(DiscoveredVersion, String)> = Vec::new();
    assert_eq!(
        list_executables(&empty),
        Err("No Python executable found".to_string())
    );
}

#[test]
fn test_list_executables_renders_table() {
    let executables = vec![
        (
            DiscoveredVersion::Exact(3, 6),
            "/usr/bin/python3.6".to_string(),
        ),
        (DiscoveredVersion::MajorOnly(3), "/usr/bin/python3".to_string()),
    ];
    let listing = list_executables(&executables).unwrap();
    assert_eq!(
        listing,
        "Version  Path\n\
         =======  ====\n\
         3.0      /usr/bin/python3\n\
         3.6      /usr/bin/python3.6\n"
    );
}

#[test]
fn test_from_main_executes_resolved_interpreter() {
    let argv = vec!["py".to_string(), "-3.6".to_string(), "script.py".to_string()];
    let dirs = vec![vec![
        cand(DiscoveredVersion::Exact(3, 6), "/usr/bin/python3.6", true),
    ]];
    match Action::from_main(&argv, &dirs) {
        Ok(Action::Execute { launcher_path, executable, args }) => {
            assert_eq!(launcher_path, "py");
            assert_eq!(executable, "/usr/bin/python3.6");
            assert_eq!(args, vec!["script.py".to_string()]);
        }
        other => panic!("unexpected action: {:?}", other),
    }
}

#[test]
fn test_from_main_unrecognized_flag_stays_in_args() {
    let argv = vec!["py".to_string(), "-S".to_string()];
    let dirs = vec![vec![
        cand(DiscoveredVersion::Exact(3, 8), "/usr/bin/python3.8", true),
    ]];
    match Action::from_main(&argv, &dirs) {
        Ok(Action::Execute { executable, args, .. }) => {
            assert_eq!(executable, "/usr/bin/python3.8");
            assert_eq!(args, vec!["-S".to_string()]);
        }
        other => panic!("unexpected action: {:?}", other),
    }
}

#[test]
fn test_from_main_picks_highest_compatible() {
    // The bare python3 sits in the first directory; its exact hit ends
    // only that directory's scan, so the later 3.8 still wins.
    let argv = vec!["py".to_string(), "-3".to_string()];
    let dirs = vec![
        vec![cand(DiscoveredVersion::MajorOnly(3), "/a/python3", true)],
        vec![cand(DiscoveredVersion::Exact(3, 8), "/b/python3.8", true)],
        vec![cand(DiscoveredVersion::Exact(3, 6), "/c/python3.6", true)],
    ];
    match Action::from_main(&argv, &dirs) {
        Ok(Action::Execute { executable, args, .. }) => {
            assert_eq!(executable, "/b/python3.8");
            assert!(args.is_empty());
        }
        other => panic!("unexpected action: {:?}", other),
    }
}

#[test]
fn test_from_main_lone_loose_survivor_wins() {
    let argv = vec!["py".to_string(), "-3".to_string()];
    let dirs = vec![vec![
        cand(DiscoveredVersion::Exact(3, 6), "/d/python3.6", true),
    ]];
    match Action::from_main(&argv, &dirs) {
        Ok(Action::Execute { launcher_path, executable, args }) => {
            assert_eq!(launcher_path, "py");
            assert_eq!(executable, "/d/python3.6");
            assert!(args.is_empty());
        }
        other => panic!("unexpected action: {:?}", other),
    }
}

#[test]
fn test_from_main_major_only_discovery_satisfies_major_request() {
    let argv = vec!["py".to_string(), "-3".to_string()];
    let dirs = vec![vec![
        cand(DiscoveredVersion::MajorOnly(3), "/d/python3", true),
    ]];
    match Action::from_main(&argv, &dirs) {
        Ok(Action::Execute { executable, .. }) => {
            assert_eq!(executable, "/d/python3");
        }
        other => panic!("unexpected action: {:?}", other),
    }
}

#[test]
fn test_from_main_exact_request_never_loosely_satisfied() {
    let argv = vec!["py".to_string(), "-3.7".to_string()];
    let dirs = vec![vec![
        cand(DiscoveredVersion::Exact(3, 6), "/d/python3.6", true),
        cand(DiscoveredVersion::MajorOnly(3), "/d/python3", true),
    ]];
    assert_eq!(
        Action::from_main(&argv, &dirs),
        Err("no Python executable found".to_string())
    );
}

#[test]
fn test_from_main_exact_first_directory_wins() {
    let argv = vec!["py".to_string(), "-3.6".to_string()];
    let with_other_minor = vec![
        vec![cand(DiscoveredVersion::Exact(3, 6), "/a/python3.6", true)],
        vec![cand(DiscoveredVersion::Exact(3, 7), "/b/python3.7", true)],
    ];
    let with_same_key = vec![
        vec![cand(DiscoveredVersion::Exact(3, 6), "/a/python3.6", true)],
        vec![cand(DiscoveredVersion::Exact(3, 6), "/b/python3.6", true)],
    ];
    for dirs in [with_other_minor, with_same_key] {
        match Action::from_main(&argv, &dirs) {
            Ok(Action::Execute { executable, .. }) => {
                assert_eq!(executable, "/a/python3.6");
            }
            other => panic!("unexpected action: {:?}", other),
        }
    }
}

#[test]
fn test_from_main_never_picks_broken_link() {
    let argv = vec!["py".to_string()];
    let dangling = vec![vec![
        cand(DiscoveredVersion::Exact(3, 9), "/d/python3.9", false),
    ]];
    assert_eq!(
        Action::from_main(&argv, &dangling),
        Err("no Python executable found".to_string())
    );
    let with_real = vec![vec![
        cand(DiscoveredVersion::Exact(3, 9), "/d/python3.9", false),
        cand(DiscoveredVersion::Exact(3, 6), "/d/python3.6", true),
    ]];
    match Action::from_main(&argv, &with_real) {
        Ok(Action::Execute { executable, .. }) => {
            assert_eq!(executable, "/d/python3.6");
        }
        other => panic!("unexpected action: {:?}", other),
    }
}

#[test]
fn test_from_main_no_interpreter_fails() {
    let argv = vec!["py".to_string()];
    let dirs: Vec<Vec<Candidate>> = Vec::new();
    assert_eq!(
        Action::from_main(&argv, &dirs),
        Err("no Python executable found".to_string())
    );
}

#[test]
fn test_from_main_list_without_interpreters_fails() {
    let argv = vec!["py".to_string(), "--list".to_string()];
    let dirs: Vec<Vec<Candidate>> = Vec::new();
    assert_eq!(
        Action::from_main(&argv, &dirs),
        Err("No Python executable found".to_string())
    );
}

#[test]
fn test_from_main_help_names_default_executable() {
    let argv = vec!["py".to_string(), "--help".to_string()];
    let dirs = vec![vec![
        cand(DiscoveredVersion::Exact(3, 8), "/usr/bin/python3.8", true),
    ]];
    match Action::from_main(&argv, &dirs) {
        Ok(Action::Help(message, executable)) => {
            assert_eq!(executable, "/usr/bin/python3.8");
            assert_eq!(
                message,
                "Python Launcher\n\nUsage: py [-h|--help] [--list] [-<version>] [args]\n\n\
                 Default executable: /usr/bin/python3.8\n"
            );
        }
        other => panic!("unexpected action: {:?}", other),
    }
}
