use git_impact::git::{diff_range_arg, parse_changed_files, parse_repo_files, parse_repo_root, DiffRange};

#[test]
fn builds_two_and_three_dot_ranges() {
    assert_eq!(diff_range_arg("main", "HEAD", DiffRange::TwoDot), "main..HEAD");
    assert_eq!(diff_range_arg("main", "HEAD", DiffRange::ThreeDot), "main...HEAD");
}

#[test]
fn changed_files_are_trimmed_nonempty_lines() {
    let files = parse_changed_files("  a.txt \n\n\tdir/b.rs\r\n   \nc\n");

    assert_eq!(files, vec!["a.txt".to_owned(), "dir/b.rs".to_owned(), "c".to_owned()]);
    assert!(parse_changed_files("").is_empty());
}

#[test]
fn repo_files_are_split_on_nul_sorted_and_deduplicated() {
    let files = parse_repo_files("tracked.txt\0b/c.txt\0\0tracked.txt\0a.txt");

    assert_eq!(
        files,
        vec!["a.txt".to_owned(), "b/c.txt".to_owned(), "tracked.txt".to_owned()]
    );
    assert!(parse_repo_files("\0\0").is_empty());
}

#[test]
fn repo_root_is_the_trimmed_output() {
    assert_eq!(parse_repo_root("  /tmp/repo \n"), Some("/tmp/repo".to_owned()));
    assert_eq!(parse_repo_root(" \n\t"), None);
}
