use overlord::config::{MatchOptions, Suite, SuitePath};
use overlord::path::Path;
use overlord::util::PathWrapper;

fn get_suite() -> Suite {
    let root = PathWrapper::from_str("/foo");
    let paths = vec![
        SuitePath::new(&root, "*_test.txt".to_string()),
        SuitePath::new(&root, "nested/bar/*_test.txt".to_string()),
    ];

    Suite {
        group: "xfoo".to_string(),
        root: root,
        paths: paths,
        executable: "cat".to_string(),
    }
}

fn suite_at(root_path: &str, pattern: &str) -> Suite {
    let root = PathWrapper::from_str(root_path);
    let paths = vec![SuitePath::new(&root, pattern.to_string())];
    Suite {
        group: "unit".to_string(),
        root: root,
        paths: paths,
        executable: "cat".to_string(),
    }
}

#[test]
fn new_suite_path() {
    let subject = SuitePath::new(&PathWrapper::from_str("/User/foo"), "*.txt".to_string());

    // Quick sanity check to ensure pattern matching is working from the correct
    // root.
    assert!(subject.matches("/User/foo/xfoo.txt"));
    assert_eq!(subject.matches("/User/foo/xfoo.js"), false);
    assert_eq!(subject.matches("xfoo.txt"), false);
}

#[test]
fn suite_path_matches_none() {
    let suite = get_suite();
    assert_eq!(
        suite.contains_path(&Path::new("/foo/other/file_test.txt")),
        false
    );
}

#[test]
fn suite_path_matches() {
    let suite = get_suite();
    assert!(suite.contains_path(&Path::new("/foo/1_test.txt")));
    assert!(suite.contains_path(&Path::new("/foo/2_test.txt")));
    assert!(suite.contains_path(&Path::new("/foo/nested/bar/1_test.txt")));
    assert!(suite.contains_path(&Path::new("/foo/nested/bar/2_test.txt")));
}

#[test]
fn suite_path_holds_the_joined_pattern() {
    let subject = SuitePath::new(&PathWrapper::from_str("/User/foo"), "*.txt".to_string());
    assert_eq!(subject.path, "/User/foo/*.txt");

    let nested = SuitePath::new(
        &PathWrapper::from_str("/User/foo/"),
        "nested//bar/./*_test.txt".to_string(),
    );
    assert_eq!(nested.path, "/User/foo/nested/bar/*_test.txt");

    let upwards = SuitePath::new(&PathWrapper::from_str("/User/foo"), "../*.txt".to_string());
    assert_eq!(upwards.path, "/User/*.txt");

    let absolute = SuitePath::new(&PathWrapper::from_str("/User/foo"), "/etc/*.conf".to_string());
    assert_eq!(absolute.path, "/etc/*.conf");
}

#[test]
fn pattern_is_anchored_to_its_root() {
    let suite = suite_at("/root", "*.txt");
    assert!(suite.contains_path(&Path::new("/root/a.txt")));
    assert_eq!(suite.contains_path(&Path::new("/root/sub/a.txt")), false);
    assert_eq!(suite.contains_path(&Path::new("/other_root/a.txt")), false);
}

#[test]
fn wildcard_crosses_a_directory_only_in_a_plain_match() {
    let subject = SuitePath::new(&PathWrapper::from_str("/root"), "*.txt".to_string());
    let strict = MatchOptions {
        case_sensitive: true,
        require_literal_separator: true,
        require_literal_leading_dot: false,
    };
    assert!(subject.matches("/root/sub/a.txt"));
    assert_eq!(subject.matches_with("/root/sub/a.txt", strict), false);
    assert!(subject.matches_with("/root/a.txt", strict));
}

#[test]
fn suite_match_is_case_sensitive() {
    let suite = suite_at("/root", "*.txt");
    assert_eq!(suite.contains_path(&Path::new("/root/a.TXT")), false);
    assert_eq!(suite.contains_path(&Path::new("/Root/a.txt")), false);

    let subject = SuitePath::new(&PathWrapper::from_str("/root"), "*.txt".to_string());
    let loose = MatchOptions {
        case_sensitive: false,
        require_literal_separator: true,
        require_literal_leading_dot: false,
    };
    assert!(subject.matches_with("/root/a.TXT", loose));
}

#[test]
fn leading_dot_is_nothing_special_for_a_suite() {
    let suite = suite_at("/root", "*.txt");
    assert!(suite.contains_path(&Path::new("/root/.hidden.txt")));

    let subject = SuitePath::new(&PathWrapper::from_str("/root"), "*.txt".to_string());
    let dots = MatchOptions {
        case_sensitive: true,
        require_literal_separator: true,
        require_literal_leading_dot: true,
    };
    assert_eq!(subject.matches_with("/root/.hidden.txt", dots), false);
}

#[test]
fn pattern_that_does_not_compile_matches_nothing() {
    let unclosed = SuitePath::new(&PathWrapper::from_str("/root"), "abc[def".to_string());
    assert_eq!(unclosed.path, "/root/abc[def");
    assert_eq!(unclosed.matches("/root/abc[def"), false);

    let stars = SuitePath::new(&PathWrapper::from_str("/root"), "a***".to_string());
    assert_eq!(stars.matches("/root/a"), false);

    let suite = suite_at("/root", "abc[def");
    assert_eq!(suite.contains_path(&Path::new("/root/abc[def")), false);
}

#[test]
fn suite_without_patterns_contains_nothing() {
    let suite = Suite {
        group: "empty".to_string(),
        root: PathWrapper::from_str("/root"),
        paths: Vec::new(),
        executable: "cat".to_string(),
    };
    assert_eq!(suite.contains_path(&Path::new("/root/a.txt")), false);
}

#[test]
fn second_pattern_of_a_suite_can_match() {
    let suite = get_suite();
    assert!(suite.contains_path(&Path::new("/foo/nested/bar/x_test.txt")));
    assert_eq!(suite.contains_path(&Path::new("/foo/nested/x_test.txt")), false);
}

#[test]
fn relative_candidate_is_matched_as_written() {
    let suite = suite_at("/root", "*.txt");
    assert_eq!(suite.contains_path(&Path::new("a.txt")), false);
    assert_eq!(suite.contains_path(&Path::new("root/a.txt")), false);
    assert!(suite.contains_path(&Path::new("/root/./x/../a.txt")));
}
