use python_launcher::shebang::{find_shebang, parse_python_shebang, split_shebang};
use python_launcher::version::RequestedVersion;

#[test]
fn test_find_shebang() {
    // Common case.
    assert_eq!(
        find_shebang("#! /usr/bin/cat\nprint('Hello!')\n"),
        Some("/usr/bin/cat".to_string())
    );

    // No shebang.
    assert_eq!(find_shebang("print('Hello!')"), None);

    // No whitespace between `#!` and command.
    assert_eq!(
        find_shebang("#!/usr/bin/cat\nHello"),
        Some("/usr/bin/cat".to_string())
    );

    // Command with arguments.
    assert_eq!(
        find_shebang("#! /usr/bin/env python -S"),
        Some("/usr/bin/env python -S".to_string())
    );

    // Strip trailing whitespace.
    assert_eq!(
        find_shebang("#! /usr/bin/python \n# Hello"),
        Some("/usr/bin/python".to_string())
    );

    // Nothing but a shebang.
    assert_eq!(
        find_shebang("#! /usr/bin/python"),
        Some("/usr/bin/python".to_string())
    );
}

#[test]
fn test_split_shebang() {
    assert_eq!(split_shebang("/usr/bin/rustup"), None);
    assert_eq!(split_shebang("/usr/bin/rustup self update"), None);
    assert_eq!(
        split_shebang("/usr/bin/env python"),
        Some((RequestedVersion::MajorOnly(2), Vec::new()))
    );
    assert_eq!(
        split_shebang("/usr/bin/python42.13"),
        Some((RequestedVersion::Exact(42, 13), Vec::new()))
    );
    assert_eq!(
        split_shebang("python -S -v"),
        Some((
            RequestedVersion::MajorOnly(2),
            vec!["-S".to_string(), "-v".to_string()]
        ))
    );
    assert_eq!(
        split_shebang("/usr/local/bin/python3.7 -S"),
        Some((RequestedVersion::Exact(3, 7), vec!["-S".to_string()]))
    );
}

#[test]
fn test_parse_python_shebang_env_form() {
    assert_eq!(
        parse_python_shebang("#! /usr/bin/env python -S"),
        Some((RequestedVersion::MajorOnly(2), vec!["-S".to_string()]))
    );
}

#[test]
fn test_parse_python_shebang_foreign_interpreter() {
    assert_eq!(parse_python_shebang("#!/usr/bin/rustup"), None);
}

#[test]
fn test_split_shebang_bad_version_fragment() {
    // A fragment the grammar rejects silences the shebang entirely.
    assert_eq!(split_shebang("/usr/bin/python3.6.4 -S"), None);
}
