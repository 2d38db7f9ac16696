use xfiles::parse_items;
use xfiles::render_items;
use xfiles::SelectError;
use xfiles::Selection;

fn strs(items: &[&str]) -> Vec<String> {
    items.iter().map(|s| s.to_string()).collect()
}

#[test]
fn add_dedup() {
    let mut sel = Selection::new(false);
    sel.add(&strs(&["/a", "/a/", "/a"]), "/").unwrap();
    assert_eq!(sel.show(), strs(&["/a"]));
}

#[test]
fn add_preserves_first_seen_order() {
    let mut sel = Selection::new(false);
    sel.add(&strs(&["/b"]), "/").unwrap();
    sel.add(&strs(&["/a", "/b"]), "/").unwrap();
    assert_eq!(sel.show(), strs(&["/b", "/a"]));
}

#[test]
fn remove_exactness() {
    let mut sel = Selection::new(false);
    sel.add(&strs(&["/a", "/b"]), "/").unwrap();
    sel.remove(&strs(&["/a/"]), "/").unwrap();
    assert_eq!(sel.show(), strs(&["/b"]));
}

#[test]
fn clear_then_show() {
    let mut sel = Selection::new(false);
    sel.add(&strs(&["/a", "/b"]), "/").unwrap();
    sel.clear();
    assert_eq!(sel.show(), strs(&[]));
}

#[test]
fn empty_item_filtering() {
    let mut sel = Selection::new(false);
    sel.add(&strs(&["", "/x", ""]), "/").unwrap();
    assert_eq!(sel.show(), strs(&["/x"]));
}

#[test]
fn store_location_policy() {
    assert_eq!(Selection::new(true).show_path(), "/dev/shm/xfiles");
    assert_eq!(Selection::new(false).show_path(), "/tmp/xfiles");
}

#[test]
fn parse_skips_blank_lines() {
    assert_eq!(parse_items("/a\n\n/b\n"), strs(&["/a", "/b"]));
    assert_eq!(parse_items(""), strs(&[]));
}

#[test]
fn render_joins_with_newlines() {
    assert_eq!(render_items(&strs(&["/a", "/b"])), "/a\n/b");
    assert_eq!(render_items(&strs(&[])), "");
}

#[test]
fn render_then_parse_round_trip() {
    let items = strs(&["/a", "/b/c", "/d"]);
    assert_eq!(parse_items(&render_items(&items)), items);
}

#[test]
fn load_from_backing_text() {
    let sel = Selection::load(false, "/a\n\n/b");
    assert_eq!(sel.show(), strs(&["/a", "/b"]));
    assert_eq!(sel.show_path(), "/tmp/xfiles");
    let empty = Selection::load(false, "");
    assert_eq!(empty.show(), strs(&[]));
}

#[test]
fn unknown_home_user_aborts_batch() {
    let mut sel = Selection::new(false);
    sel.add(&strs(&["/a"]), "/").unwrap();
    let r = sel.add(&strs(&["/b", "~xq_no_such_user_zz9/x"]), "/");
    assert_eq!(r, Err(SelectError::UnknownHomeUser));
    assert_eq!(sel.show(), strs(&["/a"]));
}

#[test]
fn tilde_expands_through_environment() {
    let mut sel = Selection::new(false);
    sel.add(&strs(&["~"]), "/").unwrap();
    let items = sel.show();
    assert_eq!(items.len(), 1);
    assert!(items[0].starts_with('/'));
    assert!(!items[0].contains('~'));
}

#[test]
fn remove_of_absent_item_changes_nothing() {
    let mut sel = Selection::new(false);
    sel.add(&strs(&["/a"]), "/").unwrap();
    sel.remove(&strs(&["/z"]), "/").unwrap();
    assert_eq!(sel.show(), strs(&["/a"]));
}

#[test]
fn add_normalizes_relative_items() {
    let mut sel = Selection::new(false);
    sel.add(&strs(&["x/y"]), "/home/u").unwrap();
    assert_eq!(sel.show(), strs(&["/home/u/x/y"]));
}
