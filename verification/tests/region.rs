use rustload::state::Region;
use std::cmp::Ordering;

fn region(path: &str, offset: u64, length: u64) -> Region {
    Region::new(path.to_string(), offset, length)
}

#[test]
fn regions_are_equal_by_path_offset_and_length() {
    let mut a = region("/lib/a", 0, 10);
    let mut b = region("/lib/a", 0, 10);
    a.seq = 1;
    a.block = 5;
    a.update_time = 9;
    b.seq = 2;
    assert!(a == b);
    assert_eq!(a.partial_cmp(&b), Some(Ordering::Equal));
    assert!(a != region("/lib/a", 0, 11));
    assert!(a != region("/lib/a", 1, 10));
    assert!(a != region("/lib/b", 0, 10));
}

#[test]
fn regions_are_ordered_by_path_then_offset_then_length() {
    assert!(region("/lib/a", 9, 9) < region("/lib/b", 0, 0));
    assert!(region("/lib/a", 0, 9) < region("/lib/a", 1, 0));
    assert!(region("/lib/a", 1, 0) < region("/lib/a", 1, 1));
    assert!(region("/lib", 9, 9) < region("/lib64", 0, 0));
    assert!(region("/lib/b", 0, 0) > region("/lib/a", 9, 9));
    assert!(region("/lib/a", 1, 1) >= region("/lib/a", 1, 1));
    assert!(region("/lib/a", 1, 1) <= region("/lib/a", 1, 1));
}

#[test]
fn the_order_ignores_everything_but_the_key() {
    let mut a = region("/lib/a", 0, 10);
    let b = region("/lib/a", 0, 20);
    let before = a.partial_cmp(&b);
    a.seq = 99;
    a.block = -7;
    a.update_time = 1234;
    assert_eq!(a.partial_cmp(&b), before);
    assert_eq!(before, Some(Ordering::Less));
}

#[test]
fn cloned_regions_are_equal_in_every_field() {
    let mut a = region("/lib/a", 0, 10);
    a.seq = 3;
    a.block = 4;
    a.update_time = 5;
    let b = a.clone();
    assert_eq!((b.path.as_str(), b.offset, b.length), ("/lib/a", 0, 10));
    assert_eq!((b.seq, b.block, b.update_time), (3, 4, 5));
}

#[test]
fn paths_are_compared_byte_by_byte() {
    assert_eq!(region("/lib", 9, 9).path_compare(&region("/lib64", 0, 0)), Ordering::Less);
    assert_eq!(region("/lib/b", 0, 0).path_compare(&region("/lib/a", 9, 9)), Ordering::Greater);
    assert_eq!(region("/lib/a", 1, 2).path_compare(&region("/lib/a", 3, 4)), Ordering::Equal);
    assert_eq!(region("/a b", 0, 0).path_compare(&region("/a/b", 0, 0)), Ordering::Less);
}
