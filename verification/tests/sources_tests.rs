use mkline::sources::{
    cap_picked, count_filled, find_duplicates, names_except, place_picked_rows, screen_picked,
};

fn strings(v: &[&str]) -> Vec<String> {
    v.iter().map(|s| s.to_string()).collect()
}

#[test]
fn find_duplicates_reports_each_shared_name_once() {
    let sources = strings(&["/a/x", "/b/x", "/c/y", "  ", "/d/y", "/e/x"]);
    assert_eq!(find_duplicates(&sources), strings(&["x", "y"]));
}

#[test]
fn find_duplicates_passes_over_blank_rows_and_nameless_paths() {
    let sources = strings(&["", "/", "  ", "/", "/a/b"]);
    assert!(find_duplicates(&sources).is_empty());
}

#[test]
fn find_duplicates_orders_by_second_occurrence() {
    let sources = strings(&["/1/p", "/1/q", "/2/q", "/2/p"]);
    assert_eq!(find_duplicates(&sources), strings(&["q", "p"]));
}

#[test]
fn names_except_skips_the_row() {
    let sources = strings(&["/a/x", "", "/b/y", "/"]);
    assert_eq!(names_except(&sources, 0), strings(&["y"]));
    assert_eq!(names_except(&sources, 9), strings(&["x", "y"]));
}

#[test]
fn screen_picked_sets_aside_taken_names() {
    let existing = strings(&["x"]);
    let paths = strings(&["/p/x", "/p/z", "/q/z", "/r/w", "/"]);
    let (valid, dups) = screen_picked(&existing, paths);
    assert_eq!(valid, strings(&["/p/z", "/r/w", "/"]));
    assert_eq!(dups, strings(&["x", "z"]));
}

#[test]
fn count_filled_counts_rows_with_text() {
    assert_eq!(count_filled(&strings(&["", " ", "/a", "\t/b"])), 2);
}

#[test]
fn place_picked_fills_blank_rows_then_appends() {
    let mut sources = strings(&["", "/a/b", ""]);
    let valid = strings(&["/n/1", "/n/2", "/n/3", "/n/4"]);
    place_picked_rows(&mut sources, 0, &valid);
    assert_eq!(sources, strings(&["/n/1", "/a/b", "/n/2", "/n/3", "/n/4"]));
}

#[test]
fn place_picked_stops_at_ten_filled_rows() {
    let mut sources = strings(&["/r/0", "/r/1", "/r/2", "/r/3", "/r/4", "/r/5", "/r/6", "/r/7", "/r/8", ""]);
    let valid = strings(&["/n/1", "/n/2", "/n/3"]);
    place_picked_rows(&mut sources, 9, &valid);
    assert_eq!(sources.len(), 10);
    assert_eq!(sources[9], "/n/1");
}

#[test]
fn place_picked_replaces_the_row_it_was_picked_for() {
    let mut sources = strings(&["/old", "/b"]);
    place_picked_rows(&mut sources, 0, &strings(&["/new"]));
    assert_eq!(sources, strings(&["/new", "/b"]));
}

#[test]
fn cap_picked_keeps_the_first() {
    let (kept, dropped) = cap_picked(strings(&["a", "b", "c"]), 2);
    assert_eq!(kept, strings(&["a", "b"]));
    assert!(dropped);
    let (kept, dropped) = cap_picked(strings(&["a", "b"]), 2);
    assert_eq!(kept, strings(&["a", "b"]));
    assert!(!dropped);
    let (kept, dropped) = cap_picked(strings(&["a"]), 0);
    assert!(kept.is_empty());
    assert!(dropped);
}

#[test]
fn find_duplicates_of_reordered_rows_reports_the_same_names() {
    let rows = strings(&["/a/x", "/b/y", "/c/x", "/d/y", "/e/z"]);
    let reordered = strings(&["/e/z", "/d/y", "/c/x", "/b/y", "/a/x"]);
    let mut one = find_duplicates(&rows);
    let mut two = find_duplicates(&reordered);
    one.sort();
    two.sort();
    assert_eq!(one, two);
    assert!(find_duplicates(&strings(&["/a/x", "/b/y"])).is_empty());
}
