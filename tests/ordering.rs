use ascii_video::ordering::{compare_frame_names, frame_number_of, sort_frame_names};
use std::cmp::Ordering;

fn names(v: &[&str]) -> Vec<String> {
    v.iter().map(|s| s.to_string()).collect()
}

#[test]
fn frame_names_sort_numerically() {
    let mut v = names(&["a.2.png", "a.10.png", "a.1.png"]);
    sort_frame_names(&mut v);
    assert_eq!(v, names(&["a.1.png", "a.2.png", "a.10.png"]));
}

#[test]
fn names_without_numbers_sort_as_text() {
    let mut v = names(&["b.png", "a.png", "c.x.png", "a.y.png"]);
    sort_frame_names(&mut v);
    assert_eq!(v, names(&["a.png", "a.y.png", "b.png", "c.x.png"]));
}

#[test]
fn frame_number_needs_exactly_two_dots_and_a_number() {
    assert_eq!(frame_number_of("a.10.png"), Some(10));
    assert_eq!(frame_number_of("frame.0007.jpg"), Some(7));
    assert_eq!(frame_number_of("a.+7.png"), Some(7));
    assert_eq!(frame_number_of("a.4294967295.png"), Some(u32::MAX));
    assert_eq!(frame_number_of("a.4294967296.png"), None);
    assert_eq!(frame_number_of("a.png"), None);
    assert_eq!(frame_number_of("a.x.png"), None);
    assert_eq!(frame_number_of("a..png"), None);
    assert_eq!(frame_number_of("a.+.png"), None);
    assert_eq!(frame_number_of("d.v/a.1.png"), None);
}

#[test]
fn comparison_falls_back_to_text() {
    assert_eq!(compare_frame_names("a.9.png", "a.10.png"), Ordering::Less);
    assert_eq!(compare_frame_names("a.10.png", "b.10.png"), Ordering::Equal);
    assert_eq!(compare_frame_names("a.png", "a.9.png"), Ordering::Greater);
    assert_eq!(compare_frame_names("ab", "a"), Ordering::Greater);
    assert_eq!(compare_frame_names("x", "x"), Ordering::Equal);
}

#[test]
fn sort_keeps_every_name() {
    let mut v = names(&["f.3.png", "f.1.png", "f.3.png", "f.2.png"]);
    sort_frame_names(&mut v);
    assert_eq!(v, names(&["f.1.png", "f.2.png", "f.3.png", "f.3.png"]));
}
