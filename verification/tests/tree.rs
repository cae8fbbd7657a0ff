use ruclifs::cli::Styler;
use ruclifs::tree::{
    arrange, depth_below, is_listed_at, side_of, DirEntry, FileEntry, Scan, Side, ELBOW,
    PIPE_PREFIX, SPACE_PREFIX, TEE,
};
use std::path::{Path, PathBuf};
use tempfile::tempdir;

fn touch(dir: &Path, name: &str) {
    tempfile::Builder::new()
        .prefix(name)
        .rand_bytes(0)
        .tempfile_in(dir)
        .unwrap()
        .keep()
        .unwrap();
}

fn create_dir(dir: &Path, name: &str) -> PathBuf {
    tempfile::Builder::new().prefix(name).rand_bytes(0).tempdir_in(dir).unwrap().keep()
}

fn set_up_dir(dir: &Path) -> PathBuf {
    let rootdir = create_dir(dir, "root_dir");

    touch(&rootdir, "some_file_1.txt");
    touch(&rootdir, "some_file_2.txt");

    let some_subdir = create_dir(&rootdir, "some_subdir");
    create_dir(&rootdir, "some_other_subdir");

    touch(&some_subdir, "some_subdir_file_1.txt");
    touch(&some_subdir, "some_subdir_file_2.rs");

    let some_subsubdir = create_dir(&rootdir, "some_subsubdir");

    touch(&some_subsubdir, "some_subsubdir_file_1.txt");
    touch(&some_subsubdir, "some_subsubdir_file_2.rs");
    touch(&some_subsubdir, "some_subsubdir_file_3.rs");

    rootdir
}

/// What is found in `dir`, as far as the tree asks for it.
fn scan(dir: &Path, depth: i32, th_depth: i32, show_size: bool) -> Option<Vec<Scan>> {
    if !is_listed_at(depth, th_depth, show_size) {
        return Some(Vec::new());
    }
    let mut found = Vec::new();
    for entry in glob::glob(&format!("{}/*", dir.to_str().unwrap())).ok()? {
        let path = entry.ok()?;
        let name = path.to_str().unwrap().to_string();
        if path.is_dir() {
            let listing = scan(&path, depth_below(depth), th_depth, show_size);
            found.push(Scan::Dir { path: name, listing });
        } else {
            found.push(Scan::File { path: name, size: path.metadata().unwrap().len() });
        }
    }
    found.reverse();
    Some(found)
}

#[test]
fn tree_full_depth_no_size() {
    // set up directory
    let tempdir = tempdir().unwrap();
    let rootdir = set_up_dir(tempdir.path());

    let styler_size = Styler::build("", "", false, false, "").ok().unwrap();
    let styler_folder = Styler::build("", "", false, false, "").ok().unwrap();
    // build tree
    let mut root_dir_entry = DirEntry::build(
        rootdir.to_str().unwrap().to_string(),
        String::from(""),
        String::from(""),
        0,
        -1,
        false,
        &styler_size,
        &styler_folder,
    );
    root_dir_entry.get_children(&scan(&rootdir, 0, -1, false));

    println!("{}", root_dir_entry.render());

    assert_eq!(
        root_dir_entry.render(),
        "\
root_dir
├── some_file_1.txt
├── some_file_2.txt
├── some_other_subdir
├── some_subdir
│   ├── some_subdir_file_1.txt
│   └── some_subdir_file_2.rs
└── some_subsubdir
    ├── some_subsubdir_file_1.txt
    ├── some_subsubdir_file_2.rs
    └── some_subsubdir_file_3.rs
"
    );

    // teardown
    tempdir.close().unwrap();
}

#[test]
fn tree_full_depth() {
    // set up directory
    let tempdir = tempdir().unwrap();
    let rootdir = set_up_dir(tempdir.path());

    let styler_size = Styler::build("", "", false, false, "").ok().unwrap();
    let styler_folder = Styler::build("", "", false, false, "").ok().unwrap();
    // build tree
    let mut root_dir_entry = DirEntry::build(
        rootdir.to_str().unwrap().to_string(),
        String::from(""),
        String::from(""),
        0,
        -1,
        true,
        &styler_size,
        &styler_folder,
    );
    root_dir_entry.get_children(&scan(&rootdir, 0, -1, true));
    root_dir_entry.get_size();

    println!("{}", root_dir_entry.render());

    assert_eq!(
        root_dir_entry.render(),
        "\
root_dir    0.00 B
├── some_file_1.txt    0.00 B
├── some_file_2.txt    0.00 B
├── some_other_subdir    0.00 B
├── some_subdir    0.00 B
│   ├── some_subdir_file_1.txt    0.00 B
│   └── some_subdir_file_2.rs    0.00 B
└── some_subsubdir    0.00 B
    ├── some_subsubdir_file_1.txt    0.00 B
    ├── some_subsubdir_file_2.rs    0.00 B
    └── some_subsubdir_file_3.rs    0.00 B
"
    );

    // teardown
    tempdir.close().unwrap();
}

fn file(path: &str, size: u64) -> Scan {
    Scan::File { path: path.to_string(), size }
}

fn dir(path: &str, listing: Option<Vec<Scan>>) -> Scan {
    Scan::Dir { path: path.to_string(), listing }
}

fn plain() -> Styler {
    Styler::build("", "", false, false, "").ok().unwrap()
}

fn root<'a>(th_depth: i32, show_size: bool, size: &'a Styler, folder: &'a Styler) -> DirEntry<'a> {
    DirEntry::build("top/".to_string(), String::new(), String::new(), 0, th_depth, show_size, size, folder)
}

fn sample() -> Option<Vec<Scan>> {
    Some(vec![
        dir("top/b", Some(vec![file("top/b/y", 30), dir("top/b/c", Some(vec![file("top/b/c/z", 4)]))])),
        file("top/x", 100),
        dir("top/a", None),
        file("top/B", 2000),
    ])
}

#[test]
fn unlisted_directory_hides_the_size_above_it() {
    let styler = plain();
    let mut tree = root(-1, true, &styler, &styler);
    tree.get_children(&Some(vec![file("top/f", 100), dir("top/locked", None)]));
    tree.get_size();
    assert_eq!(tree.size, None);
    assert!(tree.have_access);
    assert_eq!(tree.children_file[0].size, Some(100));
    assert_eq!(tree.children_dir[0].size, None);
    assert!(!tree.children_dir[0].have_access);
    assert_eq!(
        tree.render(),
        "top size unknown\n├── f  100.00 B\n└── locked  \u{1b}[31maccess error\u{1b}[0m\n"
    );
}

#[test]
fn sizes_add_up_from_the_leaves() {
    let styler = plain();
    let mut tree = root(-1, true, &styler, &styler);
    tree.get_children(&Some(vec![
        dir("top/b", Some(vec![file("top/b/y", 30), dir("top/b/c", Some(vec![file("top/b/c/z", 4)]))])),
        file("top/x", 100),
        file("top/B", 2000),
    ]));
    assert_eq!(tree.size, None);
    tree.get_size();
    assert_eq!(tree.size, Some(2134));
    assert_eq!(tree.children_dir[0].size, Some(34));
    assert_eq!(tree.children_dir[0].children_dir[0].size, Some(4));
    assert_eq!(
        tree.render(),
        "\
top    2.13 KB
├── B    2.00 KB
├── x  100.00 B
└── b   34.00 B
    ├── y   30.00 B
    └── c    4.00 B
        └── z    4.00 B
"
    );
}

#[test]
fn sizes_stop_at_the_largest_number() {
    let styler = plain();
    let mut tree = root(-1, true, &styler, &styler);
    tree.get_children(&Some(vec![
        file("top/x", u64::MAX - 1),
        dir("top/d", Some(vec![file("top/d/y", 5)])),
    ]));
    tree.get_size();
    assert_eq!(tree.size, Some(u64::MAX));
}

#[test]
fn unlisted_root_has_no_size_and_no_entries() {
    let styler = plain();
    let mut tree = root(-1, true, &styler, &styler);
    tree.get_children(&None);
    tree.get_size();
    assert!(!tree.have_access);
    assert_eq!(tree.size, None);
    assert_eq!(tree.render(), "top  \u{1b}[31maccess error\u{1b}[0m\n");
}

#[test]
fn files_come_before_directories() {
    let styler = plain();
    let mut tree = root(-1, false, &styler, &styler);
    tree.get_children(&sample());
    assert_eq!(
        tree.render(),
        "\
top
├── B
├── x
├── a
└── b
    ├── y
    └── c
        └── z
"
    );
    assert!(!tree.children_dir[0].have_access);
    assert_eq!(tree.children_file[0].size, None);
}

#[test]
fn depth_limits_what_is_listed() {
    let styler = plain();
    let mut tree = root(1, false, &styler, &styler);
    tree.get_children(&sample());
    assert_eq!(tree.render(), "top\n├── B\n├── x\n├── a\n└── b\n");
    assert_eq!(tree.children_dir[1].children_file.len(), 0);
    assert!(tree.children_dir[0].have_access);

    let mut tree = root(0, false, &styler, &styler);
    tree.get_children(&sample());
    assert_eq!(tree.render(), "top\n");
    assert_eq!(tree.children_file.len(), 0);
}

#[test]
fn sizes_look_below_the_depth_that_is_shown() {
    let styler = plain();
    let mut tree = root(1, true, &styler, &styler);
    tree.get_children(&Some(vec![
        dir("top/b", Some(vec![file("top/b/y", 30), dir("top/b/c", Some(vec![file("top/b/c/z", 4)]))])),
        file("top/x", 100),
    ]));
    tree.get_size();
    assert_eq!(tree.render(), "top  134.00 B\n├── x  100.00 B\n└── b   34.00 B\n");

    let mut tree = root(0, true, &styler, &styler);
    tree.get_children(&Some(vec![file("top/x", 100)]));
    tree.get_size();
    assert_eq!(tree.children_file.len(), 1);
    assert_eq!(tree.render(), "top  100.00 B\n");
}

#[test]
fn which_directories_are_listed() {
    assert!(is_listed_at(0, -1, false));
    assert!(is_listed_at(1000, -1, false));
    assert!(is_listed_at(0, 1, false));
    assert!(!is_listed_at(1, 1, false));
    assert!(!is_listed_at(0, 0, false));
    assert!(is_listed_at(5, 1, true));
    assert_eq!(depth_below(0), 1);
    assert_eq!(depth_below(i32::MAX), i32::MAX);
}

#[test]
fn prefixes_follow_the_connector() {
    let styler = plain();
    let mut under_tee = DirEntry::build("d".to_string(), "  ".to_string(), TEE.to_string(), 1, -1, false, &styler, &styler);
    under_tee.get_children(&Some(vec![file("d/f", 1), file("d/g", 1)]));
    assert_eq!(under_tee.children_file[0].prefix, format!("  {}", PIPE_PREFIX));
    assert_eq!(under_tee.children_file[0].connector, TEE);
    assert_eq!(under_tee.children_file[1].connector, ELBOW);
    let mut under_elbow = DirEntry::build("d".to_string(), "  ".to_string(), ELBOW.to_string(), 1, -1, false, &styler, &styler);
    under_elbow.get_children(&Some(vec![dir("d/e", Some(vec![]))]));
    assert_eq!(under_elbow.children_dir[0].prefix, format!("  {}", SPACE_PREFIX));
    assert_eq!(under_elbow.children_dir[0].depth, 2);
    let mut under_other = DirEntry::build("d".to_string(), "  ".to_string(), "+".to_string(), 1, -1, false, &styler, &styler);
    under_other.get_children(&Some(vec![file("d/f", 1)]));
    assert_eq!(under_other.children_file[0].prefix, "  ");
}

#[test]
fn styles_are_applied() {
    let size = Styler::build("cyan", "", false, false, "").ok().unwrap();
    let folder = Styler::build("yellow", "", false, false, "").ok().unwrap();
    let mut tree = root(-1, true, &size, &folder);
    tree.get_children(&Some(vec![file("top/x", 5), dir("top/d", None)]));
    tree.get_size();
    assert_eq!(
        tree.render(),
        "\u{1b}[33mtop\u{1b}[0m\u{1b}[96m size unknown\u{1b}[0m\n\
         ├── x \u{1b}[96m   5.00 B\u{1b}[0m\n\
         └── \u{1b}[33md\u{1b}[0m  \u{1b}[31maccess error\u{1b}[0m\n"
    );
}

#[test]
fn short_size_is_padded_to_six_columns() {
    let shrinking = Styler::build("cyan", "", false, false, ".*").ok().unwrap();
    let entry = FileEntry::build("f".to_string(), String::new(), String::new(), true, &shrinking, 5);
    let mut line = Vec::new();
    entry.render_into(&mut line);
    let line: String = line.into_iter().collect();
    assert!(line.starts_with("f \u{1b}[96m   5.00 B\u{1b}[0m"));
}

#[test]
fn entries_are_arranged_by_kind_and_path() {
    let entries = vec![
        dir("t/b", None),
        file("t/x", 0),
        dir("t/a", None),
        file("t/B", 0),
        file("t/x", 1),
        file("t/ä", 0),
        file("t/xa", 0),
    ];
    assert_eq!(arrange(&entries), vec![3, 1, 4, 6, 5, 2, 0]);
    assert_eq!(arrange(&Vec::new()), Vec::<usize>::new());
}

#[test]
fn texts_are_compared_by_code_point() {
    let chars = |s: &str| s.chars().collect::<Vec<char>>();
    assert_eq!(side_of(&chars("a"), &chars("b")), Side::Before);
    assert_eq!(side_of(&chars("b"), &chars("a")), Side::After);
    assert_eq!(side_of(&chars("a"), &chars("a")), Side::Same);
    assert_eq!(side_of(&chars("a"), &chars("ab")), Side::Before);
    assert_eq!(side_of(&chars(""), &chars("")), Side::Same);
    assert_eq!(side_of(&chars("Z"), &chars("a")), Side::Before);
    assert_eq!(side_of(&chars("z"), &chars("ä")), Side::Before);
}
