use rustload::common::{capped_add, kb, DropperCell, Failure, FailureKind};
use rustload::path::{bytes_precede, bytes_rank, ends_with, same_bytes, starts_with};
use std::cell::Cell;

#[test]
fn kb_rounds_down() {
    assert_eq!(kb(0), 0);
    assert_eq!(kb(1023), 0);
    assert_eq!(kb(1024), 1);
    assert_eq!(kb(2047), 1);
    assert_eq!(kb(u64::MAX), u64::MAX / 1024);
}

#[test]
fn capped_add_caps() {
    assert_eq!(capped_add(1, 2), 3);
    assert_eq!(capped_add(u64::MAX, 1), u64::MAX);
    assert_eq!(capped_add(u64::MAX - 1, 1), u64::MAX);
    assert_eq!(capped_add(0, 0), 0);
}

#[test]
fn dropper_cell_runs_its_hook_on_release() {
    let seen = Cell::new(0);
    let cell = DropperCell::new(7, Some(|v: &i32| seen.set(*v)));
    assert_eq!(*cell.get(), 7);
    assert_eq!(seen.get(), 0);
    assert_eq!(cell.release(), 7);
    assert_eq!(seen.get(), 7);
}

#[test]
fn dropper_cell_without_hook() {
    let mut cell = DropperCell::new(String::from("a"), None::<fn(&String)>);
    assert_eq!(cell.replace(String::from("b")), "a");
    assert_eq!(cell.get(), "b");
    assert_eq!(cell.release(), "b");
}

#[test]
fn failure_kinds() {
    assert_eq!(Failure::InvalidSetting.kind(), FailureKind::Config);
    assert_eq!(Failure::DuplicateMap.kind(), FailureKind::Invariant);
    assert_eq!(Failure::DuplicateExe.kind(), FailureKind::Invariant);
    assert_eq!(Failure::SequenceExhausted.kind(), FailureKind::Invariant);
    assert_eq!(Failure::BadPath.kind(), FailureKind::Store);
    assert_eq!(Failure::BadUri.kind(), FailureKind::Store);
    assert_eq!(Failure::BadVersion.kind(), FailureKind::Store);
    assert_eq!(Failure::BadWeights.kind(), FailureKind::Store);
    assert_eq!(Failure::BadBlob.kind(), FailureKind::Store);
    assert_eq!(Failure::DuplicateSeq.kind(), FailureKind::Store);
}

#[test]
fn byte_prefixes_and_suffixes() {
    assert!(starts_with(b"/bin/ls", b"/bin"));
    assert!(starts_with(b"/bin/ls", b""));
    assert!(starts_with(b"/bin", b"/bin"));
    assert!(!starts_with(b"/bi", b"/bin"));
    assert!(!starts_with(b"/bin/ls", b"/sbin"));
    assert!(ends_with(b"/bin/ls", b"ls"));
    assert!(ends_with(b"/bin/ls", b""));
    assert!(!ends_with(b"ls", b"/bin/ls"));
    assert!(!ends_with(b"/bin/ls", b"lt"));
    assert!(same_bytes(b"abc", b"abc"));
    assert!(!same_bytes(b"abc", b"abd"));
    assert!(!same_bytes(b"abc", b"ab"));
}

#[test]
fn byte_order_is_lexicographic() {
    assert!(bytes_precede(b"a", b"b"));
    assert!(bytes_precede(b"", b"a"));
    assert!(bytes_precede(b"a", b"ab"));
    assert!(bytes_precede(b"/lib", b"/lib64"));
    assert!(bytes_precede(b"/a/z", b"/b/a"));
    assert!(!bytes_precede(b"b", b"a"));
    assert!(!bytes_precede(b"a", b"a"));
    assert!(!bytes_precede(b"", b""));
    assert!(!bytes_precede(b"ab", b"a"));
    assert!(bytes_precede(b"Z", b"a"));
    assert!(bytes_precede(&[0x7f], &[0x80]));
}

#[test]
fn byte_order_agrees_with_string_order() {
    let names = ["", "/", "/a", "/a/b", "/ab", "/b", "/é", "/z", "/a b"];
    for a in names {
        for b in names {
            assert_eq!(bytes_precede(a.as_bytes(), b.as_bytes()), a < b);
        }
    }
}

#[test]
fn byte_rank_tells_three_cases_apart() {
    assert_eq!(bytes_rank(b"abc", b"abc"), 0);
    assert_eq!(bytes_rank(b"", b""), 0);
    assert_eq!(bytes_rank(b"ab", b"abc"), 1);
    assert_eq!(bytes_rank(b"abb", b"abc"), 1);
    assert_eq!(bytes_rank(b"abc", b"ab"), 2);
    assert_eq!(bytes_rank(b"b", b"abc"), 2);
}
