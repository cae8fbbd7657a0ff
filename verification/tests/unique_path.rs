use ruclifs::file_sys::{full_glob_pattern, UniquePathGetter};
use std::path::Path;

fn on_disk(path: &str) -> bool {
    Path::new(path).exists()
}

fn nowhere(_path: &str) -> bool {
    false
}

#[test]
fn path_free() {
    let path_getter = UniquePathGetter::new();
    let path_in = "/some/path/to/file.rs";
    let path_out = path_getter.get_unique(path_in, &on_disk);
    assert_eq!(path_out, Some(path_in.to_string()));
}

#[test]
fn path_taken() {
    let file = tempfile::NamedTempFile::new().unwrap();
    let path_in = file.path().to_str().unwrap().to_string();
    let path_getter = UniquePathGetter::new();
    let path_out = path_getter.get_unique(&path_in, &on_disk).unwrap();
    assert_eq!(Path::new(&path_out).parent(), Path::new(&path_in).parent());
    assert_ne!(path_out, path_in);
}

#[test]
fn path_in_mocked_taken() {
    let mut path_getter = UniquePathGetter::new();
    let path_in = "/some/path/to/file.rs";
    path_getter.add_mock_taken(path_in.to_string());
    let path_out = path_getter.get_unique(path_in, &on_disk);
    assert_eq!(path_out, Some("/some/path/to/file_1.rs".to_string()));
}

#[test]
fn path_in_mocked_taken_has_suffix() {
    let mut path_getter = UniquePathGetter::new();
    let path_in = "/some/path/to/file_41.rs";
    path_getter.add_mock_taken(path_in.to_string());
    let path_out = path_getter.get_unique(path_in, &on_disk);
    assert_eq!(path_out, Some("/some/path/to/file_42.rs".to_string()));
}

#[test]
fn path_in_mocked_free() {
    let file = tempfile::NamedTempFile::new().unwrap();
    let path_in = file.path().to_str().unwrap().to_string();
    let mut path_getter = UniquePathGetter::new();
    path_getter.add_mock_free(path_in.clone());
    let path_out = path_getter.get_unique(&path_in, &on_disk);
    assert_eq!(path_out, Some(path_in));
}

#[test]
fn unused_path_resolves_to_itself() {
    let mut path_getter = UniquePathGetter::new();
    path_getter.add_mock_taken("a/other.txt".to_string());
    assert_eq!(path_getter.get_unique("a/b.txt", &nowhere), Some("a/b.txt".to_string()));
}

#[test]
fn taken_path_gets_the_same_number_each_time() {
    let mut path_getter = UniquePathGetter::new();
    path_getter.add_mock_taken("a/b.txt".to_string());
    let first = path_getter.get_unique("a/b.txt", &nowhere);
    let second = path_getter.get_unique("a/b.txt", &nowhere);
    assert_eq!(first, Some("a/b_1.txt".to_string()));
    assert_eq!(first, second);
}

#[test]
fn free_overrides_taken() {
    let mut path_getter = UniquePathGetter::new();
    path_getter.add_mock_taken("a/b.txt".to_string());
    assert_eq!(path_getter.get_unique("a/b.txt", &nowhere), Some("a/b_1.txt".to_string()));
    path_getter.add_mock_free("a/b.txt".to_string());
    assert_eq!(path_getter.get_unique("a/b.txt", &nowhere), Some("a/b.txt".to_string()));
}

#[test]
fn free_overrides_the_disk() {
    let mut path_getter = UniquePathGetter::new();
    path_getter.add_mock_free("a/b.txt".to_string());
    let everywhere = |_p: &str| true;
    assert_eq!(path_getter.get_unique("a/b.txt", &everywhere), Some("a/b.txt".to_string()));
}

#[test]
fn numbers_are_tried_in_order() {
    let mut path_getter = UniquePathGetter::new();
    path_getter.add_mock_taken("x.txt".to_string());
    path_getter.add_mock_taken("x_1.txt".to_string());
    path_getter.add_mock_taken("x_3.txt".to_string());
    let disk = |p: &str| p == "x_2.txt";
    assert_eq!(path_getter.get_unique("x.txt", &disk), Some("x_4.txt".to_string()));
    path_getter.add_mock_free("x_1.txt".to_string());
    assert_eq!(path_getter.get_unique("x.txt", &disk), Some("x_1.txt".to_string()));
}

#[test]
fn is_occupied_follows_the_rule() {
    let mut path_getter = UniquePathGetter::new();
    assert!(!path_getter.is_occupied("p", false));
    assert!(path_getter.is_occupied("p", true));
    path_getter.add_mock_taken("p".to_string());
    assert!(path_getter.is_occupied("p", false));
    path_getter.add_mock_free("p".to_string());
    assert!(!path_getter.is_occupied("p", false));
    assert!(!path_getter.is_occupied("p", true));
}

#[test]
fn names_without_extension_or_directory() {
    let everywhere_but = |p: &str| p != "notes_1" && p != "dir.d/notes_1" && p != ".profile_1";
    let path_getter = UniquePathGetter::new();
    assert_eq!(path_getter.get_unique("notes", &everywhere_but), Some("notes_1".to_string()));
    assert_eq!(
        path_getter.get_unique("dir.d/notes", &everywhere_but),
        Some("dir.d/notes_1".to_string())
    );
    assert_eq!(path_getter.get_unique(".profile", &everywhere_but), Some(".profile_1".to_string()));
}

#[test]
fn only_the_last_dot_starts_the_extension() {
    let mut path_getter = UniquePathGetter::new();
    path_getter.add_mock_taken("a.tar.gz".to_string());
    path_getter.add_mock_taken("b.".to_string());
    assert_eq!(path_getter.get_unique("a.tar.gz", &nowhere), Some("a.tar_1.gz".to_string()));
    assert_eq!(path_getter.get_unique("b.", &nowhere), Some("b_1.".to_string()));
}

fn numbered(path: &str) -> String {
    let mut path_getter = UniquePathGetter::new();
    path_getter.add_mock_taken(path.to_string());
    path_getter.get_unique(path, &nowhere).unwrap()
}

#[test]
fn what_counts_as_a_number() {
    assert_eq!(numbered("f_007.rs"), "f_8.rs");
    assert_eq!(numbered("f_.rs"), "f__1.rs");
    assert_eq!(numbered("f_1a.rs"), "f_1a_1.rs");
    assert_eq!(numbered("_5.rs"), "_6.rs");
    assert_eq!(numbered("f_18446744073709551614.rs"), "f_18446744073709551615.rs");
    assert_eq!(numbered("f_18446744073709551615.rs"), "f_18446744073709551615_1.rs");
    assert_eq!(numbered("f_99999999999999999999999.rs"), "f_99999999999999999999999_1.rs");
    assert_eq!(numbered("f9.rs"), "f9_1.rs");
    assert_eq!(numbered("f_٣.rs"), "f_٣_1.rs");
}

#[test]
fn no_number_is_left_after_the_last() {
    let mut path_getter = UniquePathGetter::new();
    path_getter.add_mock_taken("f_18446744073709551614.rs".to_string());
    path_getter.add_mock_taken("f_18446744073709551615.rs".to_string());
    assert_eq!(path_getter.get_unique("f_18446744073709551614.rs", &nowhere), None);
}

#[test]
fn glob_patterns() {
    assert_eq!(full_glob_pattern("dir", "*", false), "dir/*");
    assert_eq!(full_glob_pattern("dir", "*", true), "dir/**/*");
    assert_eq!(full_glob_pattern("dir/", "*.txt", true), "dir/**/*.txt");
    assert_eq!(full_glob_pattern("", "*", false), "*");
    assert_eq!(full_glob_pattern("dir", "/abs/*", true), "/abs/*");
}
