use rhei_server::library::ChildFlags;
use rhei_server::library::LibraryError;
use rhei_server::library::LibraryItem;
use rhei_server::library::LibraryRoot;
use rhei_server::library::NodeKind;
use rhei_server::library::child_flags;
use rhei_server::library::filter_items;
use rhei_server::library::item_le;
use rhei_server::library::scan_classified;
use rhei_server::library::sort_items;

fn item(name: &str, is_dir: bool, has_child_dir: bool, has_child_file: bool) -> LibraryItem {
    LibraryItem { name: name.to_string(), is_dir, has_child_dir, has_child_file }
}

fn names(items: &[LibraryItem]) -> Vec<String> {
    items.iter().map(|i| i.name.clone()).collect()
}

#[test]
fn classify_file_has_no_child_flags() {
    let entry = LibraryItem::classify("a.txt".to_string(), NodeKind::File, &Vec::new());
    assert_eq!(entry, item("a.txt", false, false, false));
}

#[test]
fn classify_directory_reads_child_kinds() {
    let children = vec![NodeKind::Other, NodeKind::File, NodeKind::File];
    let entry = LibraryItem::classify("c".to_string(), NodeKind::Directory, &children);
    assert_eq!(entry, item("c", true, false, true));

    let children = vec![NodeKind::Directory];
    let entry = LibraryItem::classify("d".to_string(), NodeKind::Directory, &children);
    assert_eq!(entry, item("d", true, true, false));

    let entry = LibraryItem::classify("e".to_string(), NodeKind::Directory, &Vec::new());
    assert_eq!(entry, item("e", true, false, false));
}

#[test]
fn child_flags_sees_both_kinds() {
    let kinds = vec![NodeKind::File, NodeKind::Other, NodeKind::Directory];
    let f = child_flags(&kinds);
    assert!(f.has_child_dir);
    assert!(f.has_child_file);
}

#[test]
fn observe_accumulates() {
    let mut f = ChildFlags::new();
    assert!(!f.has_child_dir && !f.has_child_file);
    f.observe(NodeKind::Other);
    assert!(!f.has_child_dir && !f.has_child_file);
    f.observe(NodeKind::File);
    assert!(!f.has_child_dir && f.has_child_file);
    f.observe(NodeKind::Directory);
    assert!(f.has_child_dir && f.has_child_file);
}

#[test]
fn scan_drops_empty_directories_and_sorts() {
    // A directory holding: a.txt (file), b/ (empty directory), c/ with one
    // child file. The empty directory b is suppressed.
    let a = LibraryItem::classify("a.txt".to_string(), NodeKind::File, &Vec::new());
    let b = LibraryItem::classify("b".to_string(), NodeKind::Directory, &Vec::new());
    let c = LibraryItem::classify("c".to_string(), NodeKind::Directory, &vec![NodeKind::File]);
    let out = scan_classified(&vec![Some(c), Some(b), Some(a)]);
    assert_eq!(
        out,
        vec![item("a.txt", false, false, false), item("c", true, false, true)]
    );
}

#[test]
fn scan_skips_failed_classifications() {
    let a = LibraryItem::classify("a".to_string(), NodeKind::File, &Vec::new());
    let out = scan_classified(&vec![None, Some(a), None]);
    assert_eq!(out, vec![item("a", false, false, false)]);
}

#[test]
fn scan_of_nothing_is_empty() {
    let out = scan_classified(&Vec::new());
    assert_eq!(out, Vec::<LibraryItem>::new());
}

#[test]
fn sort_orders_by_name_then_flags() {
    let sorted = sort_items(vec![
        item("b", true, true, true),
        item("a", true, false, true),
        item("a", false, false, false),
        item("a", true, false, false),
    ]);
    assert_eq!(
        sorted,
        vec![
            item("a", false, false, false),
            item("a", true, false, false),
            item("a", true, false, true),
            item("b", true, true, true),
        ]
    );
}

#[test]
fn item_order_is_by_code_point() {
    assert!(item_le(&item("abc", false, false, false), &item("abd", false, false, false)));
    assert!(!item_le(&item("b", false, false, false), &item("a", false, false, false)));
    assert!(item_le(&item("ab", false, false, false), &item("abc", false, false, false)));
    assert!(item_le(&item("A", false, false, false), &item("a", false, false, false)));
}

#[test]
fn filter_with_empty_query_is_identity() {
    let items = vec![item("zap", false, false, false), item("zen", true, true, false)];
    let out = filter_items(items, "");
    assert_eq!(names(&out), vec!["zap", "zen"]);
}

#[test]
fn filter_keeps_matches_in_order() {
    // Query "za" against zap, zen, zap2 keeps zap and zap2, in order.
    let items = vec![
        item("zap", false, false, false),
        item("zen", false, false, false),
        item("zap2", false, false, false),
    ];
    let out = filter_items(items, "za");
    assert_eq!(names(&out), vec!["zap", "zap2"]);
}

#[test]
fn filter_is_case_sensitive_substring() {
    let items = vec![
        item("Alpha", false, false, false),
        item("alpha", false, false, false),
        item("gamma", false, false, false),
    ];
    let out = filter_items(items, "alp");
    assert_eq!(names(&out), vec!["alpha"]);
    let items = vec![item("abc", false, false, false)];
    let out = filter_items(items, "xyz");
    assert_eq!(out, Vec::<LibraryItem>::new());
}

#[test]
fn resolver_joins_with_separator() {
    let root = LibraryRoot::new("library".to_string());
    assert_eq!(root.resolve("sub/dir"), "library/sub/dir");
    assert_eq!(root.resolve(""), "library/");
}

#[test]
fn library_error_kinds_are_distinct() {
    assert_ne!(LibraryError::NotFound, LibraryError::Other);
}
