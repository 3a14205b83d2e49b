use rhei_server::library::LibraryError;
use rhei_server::library::LibraryItem;
use rhei_server::routes::default_page_number;
use rhei_server::routes::default_page_size;
use rhei_server::routes::fetch_items;

fn item(name: &str) -> LibraryItem {
    LibraryItem { name: name.to_string(), is_dir: false, has_child_dir: false, has_child_file: false }
}

fn names(items: &[LibraryItem]) -> Vec<String> {
    items.iter().map(|i| i.name.clone()).collect()
}

#[test]
fn defaults_match_the_boundary_contract() {
    assert_eq!(default_page_size(), 10);
    assert_eq!(default_page_number(), 0);
}

#[test]
fn fetch_passes_scan_errors_through() {
    let r = fetch_items(Err(LibraryError::NotFound), "", false, 0, 10);
    assert_eq!(r.unwrap_err(), LibraryError::NotFound);
    let r = fetch_items(Err(LibraryError::Other), "q", true, 3, 10);
    assert_eq!(r.unwrap_err(), LibraryError::Other);
}

#[test]
fn fetch_filters_then_paginates() {
    let items = vec![item("za"), item("b"), item("zb"), item("zc"), item("zd")];
    let r = fetch_items(Ok(items), "z", false, 1, 2).unwrap();
    assert_eq!(names(&r), vec!["zc", "zd"]);
}

#[test]
fn fetch_all_bypasses_pagination() {
    let items = vec![item("za"), item("b"), item("zb"), item("zc"), item("zd")];
    let r = fetch_items(Ok(items), "z", true, 1, 2).unwrap();
    assert_eq!(names(&r), vec!["za", "zb", "zc", "zd"]);
}

#[test]
fn fetch_page_past_end_is_empty() {
    let items = vec![item("a"), item("b")];
    let r = fetch_items(Ok(items), "", false, 7, 10).unwrap();
    assert_eq!(r, Vec::<LibraryItem>::new());
}
