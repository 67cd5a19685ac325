use gitrw::patterns::{
    build_file_delete_patterns, build_folder_delete_patterns, last_index_of, PatternError,
};

#[test]
pub fn folder_deletion_patterns() {
    let patterns: Vec<String> = vec![
        "/some/folder".into(),
        "/another/folder/".into(),
        "*some_folder".into(),
        "*my/directory".into(),
        "/x/y*".into(),
        "bin/debug".into(),
        "foo/bar/".into(),
    ];

    let matches = build_folder_delete_patterns(&patterns).unwrap();

    assert!(matches.is_match(b"/some/folder/"));
    assert!(matches.is_match(b"/another/folder/"));
    assert!(matches.is_match(b"/this/is_some_folder/"));
    assert!(matches.is_match(b"/this/is/some_folder/"));
    assert!(matches.is_match(b"/my/directory/"));
    assert!(matches.is_match(b"/_my/directory/"));
    assert!(matches.is_match(b"/x/y/"));
    assert!(matches.is_match(b"/x/y/z/"));
    assert!(matches.is_match(b"/src/bin/debug/"));
    assert!(matches.is_match(b"/bin/debug/"));
    assert!(matches.is_match(b"/baz/foo/bar/"));
    assert!(matches.is_match(b"/foo/bar/"));

    assert!(!matches.is_match(b"/_bin/debug/"));
    assert!(!matches.is_match(b"/bin/debug_/"));
    assert!(!matches.is_match(b"/a/some/folder/"));
    assert!(!matches.is_match(b"/this/is_some_folder/b/"));
    assert!(!matches.is_match(b"/my/directory/b/"));
}

#[test]
pub fn file_deletion_patterns() {
    let patterns = vec![
        "/some/folder/removeme.txt".into(),
        "test.txt".into(),
        "*/bin/test_with_folder.txt".into(),
        "*test1.txt".into(),
        "/var/opt/myfile*".into(),
        "thisfile*".into(),
    ];
    let should_delete = build_file_delete_patterns(&patterns).unwrap();

    assert!(should_delete.is_match(b"/some/folder/", b"removeme.txt"));
    assert!(!should_delete.is_match(b"/some/folder/", b"1removeme.txt"));
    assert!(!should_delete.is_match(b"/some/folder/", b"removeme.txt1"));
    assert!(!should_delete.is_match(b"/some/folder/", b"removeme.tx"));
    assert!(!should_delete.is_match(b"/some/folder_/", b"removeme.txt"));

    assert!(should_delete.is_match(b"/", b"test.txt"));
    assert!(should_delete.is_match(b"/hello/world/", b"test.txt"));

    assert!(should_delete.is_match(b"/test/bin/", b"test_with_folder.txt"));
    assert!(!should_delete.is_match(b"/test/bin/another_folder", b"test_with_folder.txt"));

    assert!(should_delete.is_match(b"/some/folder/", b"test1.txt"));
    assert!(should_delete.is_match(b"/", b"test1.txt"));
    assert!(should_delete.is_match(b"/some/folder/", b"more_to_this_test1.txt"));
    assert!(should_delete.is_match(b"/", b"more_to_this_test1.txt"));

    assert!(should_delete.is_match(b"/var/opt/", b"myfile.txt"));
    assert!(should_delete.is_match(b"/var/opt/", b"myfile"));
    assert!(!should_delete.is_match(b"/var/opt/", b"_myfile.txt"));

    assert!(should_delete.is_match(b"/some/folder/", b"thisfile.txt"));
    assert!(should_delete.is_match(b"/another/folder/", b"thisfile.txt"));
    assert!(should_delete.is_match(b"/some/folder/", b"thisfile"));
    assert!(should_delete.is_match(b"/", b"thisfile"));

    assert!(!should_delete.is_match(b"/", b"_thisfile"));
    assert!(!should_delete.is_match(b"/", b"test.txt1"));
    assert!(!should_delete.is_match(b"/hello/world", b"1test.txt"));
}

#[test]
fn trailing_separator_does_not_change_absolute_matches() {
    let without: Vec<String> = vec!["/some/folder".into()];
    let with: Vec<String> = vec!["/some/folder/".into()];
    let a = build_folder_delete_patterns(&without).unwrap();
    let b = build_folder_delete_patterns(&with).unwrap();
    let probes: [&[u8]; 5] = [
        b"/some/folder/",
        b"/some/folder/nested/",
        b"/some/",
        b"/other/some/folder/",
        b"/",
    ];
    for p in probes {
        assert_eq!(a.is_match(p), b.is_match(p));
    }
}

#[test]
fn absolute_folder_pattern_matches_only_exact_path() {
    let patterns: Vec<String> = vec!["/some/folder".into(), "/another/folder/".into()];
    let m = build_folder_delete_patterns(&patterns).unwrap();
    assert!(m.is_match(b"/some/folder/"));
    assert!(m.is_match(b"/another/folder/"));
    assert!(!m.is_match(b"/some/folder/nested/"));
    assert!(!m.is_match(b"/another/folder/deeper/still/"));
    assert!(!m.is_match(b"/prefix/some/folder/"));
}

#[test]
fn star_suffix_matches_any_depth_but_not_nested_below() {
    let patterns: Vec<String> = vec!["*some_folder".into()];
    let m = build_folder_delete_patterns(&patterns).unwrap();
    assert!(m.is_match(b"/this/is_some_folder/"));
    assert!(m.is_match(b"/this/is/some_folder/"));
    assert!(!m.is_match(b"/this/is_some_folder/b/"));
    assert!(!m.is_match(b"/bin/debug_/"));
}

#[test]
fn prefix_pattern_matches_directory_and_descendants() {
    let patterns: Vec<String> = vec!["/x/y*".into()];
    let m = build_folder_delete_patterns(&patterns).unwrap();
    assert!(m.is_match(b"/x/y/"));
    assert!(m.is_match(b"/x/y/z/"));
    assert!(m.is_match(b"/x/y/z/deeper/"));
    assert!(!m.is_match(b"/x/"));
    assert!(!m.is_match(b"/a/x/y/"));
}

#[test]
fn file_pattern_with_separator_is_config_error() {
    let patterns: Vec<String> = vec!["some/file.txt".into()];
    let r = build_file_delete_patterns(&patterns);
    assert_eq!(r.unwrap_err(), PatternError::SeparatorInFileName);
}

#[test]
fn empty_pattern_is_config_error() {
    let files: Vec<String> = vec!["".into()];
    assert_eq!(
        build_file_delete_patterns(&files).unwrap_err(),
        PatternError::EmptyPattern
    );
    let folders: Vec<String> = vec!["".into()];
    assert_eq!(
        build_folder_delete_patterns(&folders).unwrap_err(),
        PatternError::EmptyPattern
    );
}

#[test]
fn last_index_of_finds_last_occurrence() {
    assert_eq!(last_index_of(b"/a/b/c.txt", b'/'), Some(4));
    assert_eq!(last_index_of(b"abc", b'/'), None);
    assert_eq!(last_index_of(b"/", b'/'), Some(0));
    assert_eq!(last_index_of(b"", b'/'), None);
}

#[test]
fn empty_pattern_lists_match_nothing() {
    let none: Vec<String> = vec![];
    let files = build_file_delete_patterns(&none).unwrap();
    let folders = build_folder_delete_patterns(&none).unwrap();
    assert!(!files.is_match(b"/", b"test.txt"));
    assert!(!folders.is_match(b"/build/"));
}
