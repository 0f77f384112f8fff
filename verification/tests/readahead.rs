use rustload::model::SortStrategy;
use rustload::readahead::{
    check_spans, coalesce, fill_blocks, lookups, needs_block, readahead, sort_by_block_or_inode,
    sort_for_lookup, sort_maps, Request,
};
use rustload::state::Region;

fn region(path: &str, offset: u64, length: u64, block: i64) -> Region {
    let mut r = Region::new(path.to_string(), offset, length);
    r.block = block;
    r
}

fn triples(requests: &[Request]) -> Vec<(&str, u64, u64)> {
    requests.iter().map(|r| (r.path.as_str(), r.offset, r.length)).collect()
}

fn paths(maps: &[Region]) -> Vec<&str> {
    maps.iter().map(|r| r.path.as_str()).collect()
}

#[test]
fn adjacent_regions_of_one_file_become_one_request() {
    let maps = vec![region("/p", 0, 100, 0), region("/p", 100, 50, 0)];
    assert_eq!(triples(&coalesce(&maps)), vec![("/p", 0, 150)]);
}

#[test]
fn coalesce_keeps_apart_what_does_not_touch() {
    let maps = vec![
        region("/p", 0, 100, 0),
        region("/p", 101, 50, 0),
        region("/q", 151, 10, 0),
        region("/q", 100, 10, 0),
    ];
    assert_eq!(
        triples(&coalesce(&maps)),
        vec![("/p", 0, 100), ("/p", 101, 50), ("/q", 151, 10), ("/q", 100, 10)]
    );
}

#[test]
fn coalesce_merges_overlapping_runs() {
    let maps = vec![
        region("/p", 0, 100, 0),
        region("/p", 50, 100, 0),
        region("/p", 150, 10, 0),
        region("/q", 160, 10, 0),
        region("/q", 165, 1, 0),
    ];
    assert_eq!(triples(&coalesce(&maps)), vec![("/p", 0, 160), ("/q", 160, 6)]);
}

#[test]
fn coalesce_of_nothing_and_of_one() {
    assert!(coalesce(&Vec::new()).is_empty());
    assert_eq!(triples(&coalesce(&vec![region("/p", 7, 9, 0)])), vec![("/p", 7, 9)]);
}

#[test]
fn check_spans_sees_an_end_beyond_the_limit() {
    assert!(check_spans(&vec![region("/p", u64::MAX - 1, 1, 0)]));
    assert!(!check_spans(&vec![region("/p", 0, 1, 0), region("/p", u64::MAX, 1, 0)]));
    assert!(check_spans(&Vec::new()));
}

#[test]
fn sort_maps_by_path() {
    let mut maps = vec![region("/b", 0, 1, 3), region("/a/z", 0, 1, 2), region("/a", 0, 1, -1), region("/a b", 0, 1, 0)];
    sort_maps(&mut maps, SortStrategy::Path, &vec![Some(9)]);
    assert_eq!(paths(&maps), vec!["/a", "/a b", "/a/z", "/b"]);
    assert_eq!(maps[0].block, -1);
}

#[test]
fn sort_maps_by_block_fills_in_what_was_looked_up() {
    let mut maps = vec![region("/b", 0, 1, 30), region("/c", 0, 1, -1), region("/a", 0, 1, 10), region("/d", 0, 1, -1)];
    sort_maps(&mut maps, SortStrategy::Block, &vec![Some(20), None]);
    assert_eq!(paths(&maps), vec!["/d", "/a", "/c", "/b"]);
    let blocks: Vec<i64> = maps.iter().map(|r| r.block).collect();
    assert_eq!(blocks, vec![0, 10, 20, 30]);
    assert!(!needs_block(&maps));
    let mut maps = vec![region("/b", 0, 1, 30), region("/a", 0, 1, 10)];
    sort_maps(&mut maps, SortStrategy::Inode, &Vec::new());
    assert_eq!(paths(&maps), vec!["/a", "/b"]);
    let mut maps = vec![region("/b", 0, 1, 30), region("/a", 0, 1, -1)];
    sort_by_block_or_inode(&mut maps, &vec![Some(40)]);
    assert_eq!(paths(&maps), vec!["/b", "/a"]);
}

#[test]
fn sort_maps_unsorted_keeps_the_order() {
    let mut maps = vec![region("/b", 0, 1, 30), region("/a", 0, 1, -1)];
    sort_maps(&mut maps, SortStrategy::Unsorted, &vec![Some(5)]);
    assert_eq!(paths(&maps), vec!["/b", "/a"]);
    assert_eq!(maps[1].block, -1);
}

#[test]
fn sort_for_lookup_sorts_only_where_a_block_is_missing() {
    let mut maps = vec![region("/b", 0, 1, 30), region("/a", 0, 1, 10)];
    assert!(!needs_block(&maps));
    assert!(sort_for_lookup(&mut maps, SortStrategy::Block).is_empty());
    assert_eq!(paths(&maps), vec!["/b", "/a"]);
    maps[0].block = -1;
    assert!(needs_block(&maps));
    assert!(sort_for_lookup(&mut maps, SortStrategy::Path).is_empty());
    assert!(sort_for_lookup(&mut maps, SortStrategy::Unsorted).is_empty());
    assert_eq!(paths(&maps), vec!["/b", "/a"]);
    assert_eq!(sort_for_lookup(&mut maps, SortStrategy::Inode), vec!["/b"]);
    assert_eq!(paths(&maps), vec!["/a", "/b"]);
}

#[test]
fn lookups_and_fill_blocks_go_in_the_order_of_the_regions() {
    let mut maps = vec![
        region("/a", 0, 1, -1),
        region("/b", 0, 1, 7),
        region("/c", 0, 1, -1),
        region("/d", 0, 1, -1),
    ];
    assert_eq!(lookups(&maps), vec!["/a", "/c", "/d"]);
    fill_blocks(&mut maps, &vec![Some(11), None]);
    let blocks: Vec<i64> = maps.iter().map(|r| r.block).collect();
    assert_eq!(blocks, vec![11, 7, 0, 0]);
    assert!(lookups(&maps).is_empty());
    fill_blocks(&mut maps, &vec![Some(99)]);
    assert_eq!(maps[0].block, 11);
}

#[test]
fn set_block_from_inode() {
    let mut r = region("/a", 0, 1, -1);
    r.set_block(Some(1234));
    assert_eq!(r.block, 1234);
    r.set_block(None);
    assert_eq!(r.block, 0);
    r.set_block(Some(i64::MAX as u64));
    assert_eq!(r.block, i64::MAX);
    r.set_block(Some(u64::MAX));
    assert_eq!(r.block, 0);
    assert_eq!(r.path, "/a");
}

#[test]
fn readahead_sorts_and_merges() {
    let mut maps = vec![
        region("/q", 0, 10, 7),
        region("/p", 100, 50, 3),
        region("/p", 0, 100, 2),
    ];
    let requests = readahead(&mut maps, SortStrategy::Block, &Vec::new());
    assert_eq!(triples(&requests), vec![("/p", 0, 150), ("/q", 0, 10)]);
    assert_eq!(paths(&maps), vec!["/p", "/p", "/q"]);
    let mut maps = vec![region("/q", 0, 10, 7), region("/p", 0, 100, 2)];
    let requests = readahead(&mut maps, SortStrategy::Unsorted, &Vec::new());
    assert_eq!(triples(&requests), vec![("/q", 0, 10), ("/p", 0, 100)]);
}

#[test]
fn readahead_that_keeps_the_order_merges_adjacent_regions() {
    let mut maps = vec![region("/p", 0, 100, -1), region("/p", 100, 50, -1)];
    let requests = readahead(&mut maps, SortStrategy::Unsorted, &Vec::new());
    assert_eq!(triples(&requests), vec![("/p", 0, 150)]);
    assert_eq!(maps[0].offset, 0);
    assert_eq!(maps[1].offset, 100);
}
