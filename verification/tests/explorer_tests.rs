use file_explorer::{explore_directory, parse_sort_key, EntryMeta, FileInfo, FsEntry, FsTree, SortKey};

fn meta(size: u64, modified: Option<i64>) -> EntryMeta {
    EntryMeta { size, modified, mode: None, owner: None, group: None }
}

fn file(name: &str, size: u64, modified: Option<i64>) -> FsEntry {
    FsEntry::File { name: name.to_string(), meta: meta(size, modified) }
}

fn names(records: &[FileInfo]) -> Vec<String> {
    records.iter().map(|r| r.name.clone()).collect()
}

#[test]
fn file_info_new_keeps_fields() {
    let r = FileInfo::new(
        "a.txt".to_string(),
        "./a.txt".to_string(),
        Some(10),
        Some(7),
        false,
        Some("644".to_string()),
        Some("1000".to_string()),
        Some("1000".to_string()),
    );
    assert_eq!(r.name, "a.txt");
    assert_eq!(r.path, "./a.txt");
    assert_eq!(r.size, Some(10));
    assert_eq!(r.modified, Some(7));
    assert!(!r.is_dir);
    assert_eq!(r.permissions, Some("644".to_string()));
    assert_eq!(r.owner, Some("1000".to_string()));
    assert_eq!(r.group, Some("1000".to_string()));
}

#[test]
fn scenario_hidden_size_filter() {
    let tree = FsTree::Listing(vec![
        file("a.txt", 10, Some(100)),
        file("b.log", 5, Some(200)),
        file(".secret", 1, Some(300)),
    ]);
    let r = explore_directory(&tree, ".", false, "size", Some(".txt"), false);
    assert_eq!(r.len(), 1);
    assert_eq!(r[0].name, "a.txt");
    assert_eq!(r[0].size, Some(10));
}

#[test]
fn scenario_recursive_subdirectory() {
    let tree = FsTree::Listing(vec![FsEntry::Dir {
        name: "sub".to_string(),
        meta: meta(4096, Some(50)),
        sub: FsTree::Listing(vec![file("c.txt", 3, Some(60))]),
    }]);
    let r = explore_directory(&tree, ".", false, "name", None, true);
    assert_eq!(names(&r), vec!["c.txt".to_string(), "sub".to_string()]);
    assert!(!r[0].is_dir);
    assert!(r[1].is_dir);
    assert_eq!(r[0].path, "./sub/c.txt");
    assert_eq!(r[1].path, "./sub");
}

#[test]
fn scenario_missing_root() {
    let r = explore_directory(&FsTree::Missing, "/no/such/dir", true, "name", None, true);
    assert!(r.is_empty());
}

#[test]
fn sort_is_stable_for_equal_sizes() {
    let tree = FsTree::Listing(vec![
        file("zeta", 5, Some(1)),
        file("alpha", 5, Some(2)),
        file("mid", 5, Some(3)),
    ]);
    let r = explore_directory(&tree, ".", true, "size", None, false);
    assert_eq!(
        names(&r),
        vec!["zeta".to_string(), "alpha".to_string(), "mid".to_string()]
    );
}

#[test]
fn sort_by_size_orders_ascending() {
    let tree = FsTree::Listing(vec![
        file("big", 30, None),
        file("small", 1, None),
        file("mid", 10, None),
    ]);
    let r = explore_directory(&tree, ".", true, "size", None, false);
    assert_eq!(
        names(&r),
        vec!["small".to_string(), "mid".to_string(), "big".to_string()]
    );
}

#[test]
fn sort_by_date_missing_time_sorts_first() {
    let tree = FsTree::Listing(vec![
        file("late", 1, Some(500)),
        file("unknown", 1, None),
        file("early", 1, Some(100)),
    ]);
    let r = explore_directory(&tree, ".", true, "date", None, false);
    assert_eq!(
        names(&r),
        vec!["unknown".to_string(), "early".to_string(), "late".to_string()]
    );
}

#[test]
fn sort_by_path_uses_full_path() {
    let tree = FsTree::Listing(vec![
        FsEntry::Dir {
            name: "zz".to_string(),
            meta: meta(0, None),
            sub: FsTree::Listing(vec![file("a", 1, None)]),
        },
        file("ba", 1, None),
    ]);
    let r = explore_directory(&tree, ".", true, "path", None, true);
    assert_eq!(
        vec!["./ba".to_string(), "./zz".to_string(), "./zz/a".to_string()],
        r.iter().map(|x| x.path.clone()).collect::<Vec<String>>()
    );
}

#[test]
fn unrecognized_sort_key_falls_back_to_name() {
    let tree = FsTree::Listing(vec![file("b", 1, None), file("a", 2, None)]);
    let r = explore_directory(&tree, ".", true, "bogus", None, false);
    assert_eq!(names(&r), vec!["a".to_string(), "b".to_string()]);
}

#[test]
fn parse_sort_key_recognizes_keys() {
    assert!(matches!(parse_sort_key("size"), SortKey::Size));
    assert!(matches!(parse_sort_key("date"), SortKey::Date));
    assert!(matches!(parse_sort_key("path"), SortKey::Path));
    assert!(matches!(parse_sort_key("name"), SortKey::Name));
    assert!(matches!(parse_sort_key(""), SortKey::Name));
    assert!(matches!(parse_sort_key("sizes"), SortKey::Name));
}

#[test]
fn hidden_directory_not_descended() {
    let tree = FsTree::Listing(vec![FsEntry::Dir {
        name: ".cache".to_string(),
        meta: meta(0, None),
        sub: FsTree::Listing(vec![file("inner.txt", 1, None)]),
    }]);
    let r = explore_directory(&tree, ".", false, "name", None, true);
    assert!(r.is_empty());
}

#[test]
fn hidden_entries_shown_on_request() {
    let tree = FsTree::Listing(vec![file(".secret", 1, None), file("plain", 2, None)]);
    let r = explore_directory(&tree, ".", true, "name", None, false);
    assert_eq!(names(&r), vec![".secret".to_string(), "plain".to_string()]);
}

#[test]
fn unreadable_entry_skipped() {
    let tree = FsTree::Listing(vec![
        FsEntry::Unreadable { name: "broken".to_string() },
        file("ok", 1, None),
    ]);
    let r = explore_directory(&tree, ".", true, "name", None, false);
    assert_eq!(names(&r), vec!["ok".to_string()]);
}

#[test]
fn missing_modified_keeps_other_fields() {
    let tree = FsTree::Listing(vec![FsEntry::File {
        name: "odd".to_string(),
        meta: EntryMeta {
            size: 42,
            modified: None,
            mode: Some(0o644),
            owner: Some("0".to_string()),
            group: Some("0".to_string()),
        },
    }]);
    let r = explore_directory(&tree, ".", true, "name", None, false);
    assert_eq!(r.len(), 1);
    assert_eq!(r[0].modified, None);
    assert_eq!(r[0].size, Some(42));
    assert_eq!(r[0].permissions, Some("644".to_string()));
    assert_eq!(r[0].owner, Some("0".to_string()));
    assert_eq!(r[0].group, Some("0".to_string()));
}

#[test]
fn permissions_rendered_as_octal_triplet() {
    let tree = FsTree::Listing(vec![
        FsEntry::File {
            name: "exe".to_string(),
            meta: EntryMeta {
                size: 1,
                modified: None,
                mode: Some(0o100755),
                owner: None,
                group: None,
            },
        },
        FsEntry::File {
            name: "none".to_string(),
            meta: EntryMeta { size: 1, modified: None, mode: Some(0), owner: None, group: None },
        },
    ]);
    let r = explore_directory(&tree, ".", true, "name", None, false);
    assert_eq!(r[0].permissions, Some("755".to_string()));
    assert_eq!(r[1].permissions, Some("000".to_string()));
}

#[test]
fn filter_applied_after_sort_keeps_order() {
    let tree = FsTree::Listing(vec![
        file("c.txt", 30, None),
        file("b.log", 20, None),
        file("a.txt", 10, None),
    ]);
    let r = explore_directory(&tree, ".", true, "size", Some(".txt"), false);
    assert_eq!(names(&r), vec!["a.txt".to_string(), "c.txt".to_string()]);
}

#[test]
fn filter_matches_exact_suffix() {
    let tree = FsTree::Listing(vec![
        file("notes.txt", 1, None),
        file("txt", 1, None),
        file("other.txt.bak", 1, None),
    ]);
    let r = explore_directory(&tree, ".", true, "name", Some(".txt"), false);
    assert_eq!(names(&r), vec!["notes.txt".to_string()]);
}

#[test]
fn recursive_walk_lists_every_entry_once() {
    let tree = FsTree::Listing(vec![
        FsEntry::Dir {
            name: "d1".to_string(),
            meta: meta(0, None),
            sub: FsTree::Listing(vec![
                file("f1", 1, None),
                FsEntry::Dir {
                    name: "d2".to_string(),
                    meta: meta(0, None),
                    sub: FsTree::Listing(vec![file("f2", 2, None)]),
                },
            ]),
        },
        file("top", 3, None),
    ]);
    let r = explore_directory(&tree, ".", true, "path", None, true);
    let mut paths: Vec<String> = r.iter().map(|x| x.path.clone()).collect();
    paths.sort();
    assert_eq!(
        paths,
        vec![
            "./d1".to_string(),
            "./d1/d2".to_string(),
            "./d1/d2/f2".to_string(),
            "./d1/f1".to_string(),
            "./top".to_string(),
        ]
    );
}

#[test]
fn unreadable_subdirectory_contributes_nothing_below_it() {
    let tree = FsTree::Listing(vec![
        FsEntry::Dir { name: "gone".to_string(), meta: meta(0, None), sub: FsTree::Missing },
        file("here", 1, None),
    ]);
    let r = explore_directory(&tree, ".", true, "name", None, true);
    assert_eq!(names(&r), vec!["gone".to_string(), "here".to_string()]);
}

#[test]
fn same_name_in_different_directories_kept_apart() {
    let tree = FsTree::Listing(vec![
        FsEntry::Dir {
            name: "a".to_string(),
            meta: meta(0, None),
            sub: FsTree::Listing(vec![file("same.txt", 1, None)]),
        },
        FsEntry::Dir {
            name: "b".to_string(),
            meta: meta(0, None),
            sub: FsTree::Listing(vec![file("same.txt", 2, None)]),
        },
    ]);
    let r = explore_directory(&tree, ".", true, "name", Some(".txt"), true);
    assert_eq!(r.len(), 2);
    let mut paths: Vec<String> = r.iter().map(|x| x.path.clone()).collect();
    paths.sort();
    assert_eq!(paths, vec!["./a/same.txt".to_string(), "./b/same.txt".to_string()]);
}

#[test]
fn empty_directory_gives_empty_result() {
    let tree = FsTree::Listing(vec![]);
    let r = explore_directory(&tree, ".", true, "name", None, true);
    assert!(r.is_empty());
}
