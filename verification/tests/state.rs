use rustload::common::Failure;
use rustload::markov::Clock;
use rustload::state::{Exe, Region, State, Stats, PROB_ONE};

fn region(path: &str, offset: u64, length: u64) -> Region {
    Region::new(path.to_string(), offset, length)
}

fn exe(path: &str, running: bool, state: &State) -> Exe {
    Exe::new(path.to_string(), running, 0, &state.clock())
}

fn pairs(state: &State) -> Vec<(usize, usize)> {
    state.chains.iter().map(|c| (c.a, c.b)).collect()
}

#[test]
fn new_state_is_empty() {
    let state = State::new();
    assert_eq!(state.time, 0);
    assert!(state.exes.is_empty());
    assert!(state.maps.is_empty());
    assert!(state.chains.is_empty());
    assert!(state.exemaps.is_empty());
    assert!(state.bad_exes.is_empty());
    assert!(!state.dirty);
    assert!(!state.model_dirty);
    assert_eq!(state.clock(), Clock { time: 0, last_running_timestamp: 0 });
    assert_eq!(
        state.dump_log(),
        Stats { time: 0, exes: 0, bad_exes: 0, maps: 0, running_exes: 0 }
    );
}

#[test]
fn region_new_and_size() {
    let r = region("/lib/libc.so", 4096, 8192);
    assert_eq!(r.get_size(), 8192);
    assert_eq!(r.seq, 0);
    assert_eq!(r.block, -1);
    assert_eq!(r.update_time, 0);
    assert!(r.is_same(&region("/lib/libc.so", 4096, 8192)));
    assert!(!r.is_same(&region("/lib/libc.so", 4096, 8193)));
    assert!(!r.is_same(&region("/lib/libc.so", 0, 8192)));
    assert!(!r.is_same(&region("/lib/libm.so", 4096, 8192)));
}

#[test]
fn register_map_assigns_increasing_sequence_numbers() {
    let mut state = State::new();
    assert_eq!(state.register_map(region("/a", 0, 10)), Ok(1));
    assert_eq!(state.register_map(region("/b", 0, 10)), Ok(2));
    assert_eq!(state.register_map(region("/a", 10, 10)), Ok(3));
    assert_eq!(state.map_seq, 3);
    let seqs: Vec<i32> = state.maps.iter().map(|m| m.seq).collect();
    assert_eq!(seqs, vec![1, 2, 3]);
    assert_eq!(state.maps.iter().filter(|m| m.seq == 3).count(), 1);
    assert_eq!(state.maps[2].path, "/a");
    assert_eq!(state.maps[2].offset, 10);
}

#[test]
fn register_map_refuses_duplicates() {
    let mut state = State::new();
    state.register_map(region("/a", 0, 10)).unwrap();
    let mut twin = region("/a", 0, 10);
    twin.update_time = 99;
    twin.block = 7;
    assert_eq!(state.register_map(twin), Err(Failure::DuplicateMap));
    assert_eq!(state.maps.len(), 1);
    assert_eq!(state.map_seq, 1);
}

#[test]
fn register_map_runs_out_of_numbers() {
    let mut state = State::new();
    state.map_seq = i32::MAX - 1;
    assert_eq!(state.register_map(region("/a", 0, 1)), Ok(i32::MAX));
    assert_eq!(state.register_map(region("/b", 0, 1)), Err(Failure::SequenceExhausted));
    assert_eq!(state.register_map(region("/a", 0, 1)), Err(Failure::DuplicateMap));
    assert_eq!(state.maps.len(), 1);
}

#[test]
fn sequence_numbers_are_not_reused_after_unregistering() {
    let mut state = State::new();
    state.register_map(region("/a", 0, 10)).unwrap();
    state.register_map(region("/b", 0, 10)).unwrap();
    assert!(state.unregister_map(&region("/b", 0, 10)));
    assert_eq!(state.register_map(region("/c", 0, 10)), Ok(3));
    assert_eq!(state.register_map(region("/b", 0, 10)), Ok(4));
}

#[test]
fn unregister_map_moves_references_down() {
    let mut state = State::new();
    let e = exe("/bin/a", false, &state);
    state.register_exe(e, false, 20).unwrap();
    state.register_map(region("/x", 0, 10)).unwrap();
    assert_eq!(state.map_exe(0, region("/y", 0, 10), PROB_ONE), Ok(1));
    assert_eq!(state.map_exe(0, region("/z", 0, 10), PROB_ONE), Ok(2));
    assert!(!state.map_in_use(&region("/x", 0, 10)));
    assert!(state.map_in_use(&region("/y", 0, 10)));
    assert!(!state.unregister_map(&region("/nowhere", 0, 10)));
    assert!(state.unregister_map(&region("/x", 0, 10)));
    assert_eq!(state.maps.len(), 2);
    let used: Vec<usize> = state.exemaps.iter().map(|u| u.map).collect();
    assert_eq!(used, vec![0, 1]);
    assert_eq!(state.maps[state.exemaps[0].map].path, "/y");
    assert_eq!(state.maps[state.exemaps[1].map].path, "/z");
}

#[test]
fn find_map_and_find_exe() {
    let mut state = State::new();
    state.register_map(region("/a", 0, 10)).unwrap();
    state.register_map(region("/b", 0, 10)).unwrap();
    assert_eq!(state.find_map(&region("/b", 0, 10)), Some(1));
    assert_eq!(state.find_map(&region("/b", 1, 10)), None);
    let e = exe("/bin/a", false, &state);
    state.register_exe(e, false, 20).unwrap();
    assert_eq!(state.find_exe(&"/bin/a".to_string()), Some(0));
    assert_eq!(state.find_exe(&"/bin/b".to_string()), None);
}

#[test]
fn exe_new_running_and_not() {
    let mut state = State::new();
    state.time = 50;
    state.last_running_timestamp = 40;
    let running = exe("/bin/a", true, &state);
    assert_eq!(running.running_timestamp, 40);
    assert_eq!(running.update_time, 40);
    assert_eq!(running.change_timestamp, 50);
    assert_eq!(running.time, 0);
    assert_eq!(running.seq, 0);
    assert!(running.is_running(&state.clock()));
    let idle = exe("/bin/b", false, &state);
    assert_eq!(idle.running_timestamp, -1);
    assert_eq!(idle.update_time, -1);
    assert!(!idle.is_running(&state.clock()));
}

#[test]
fn exe_running_time_grows_only_while_running() {
    let clock = Clock { time: 50, last_running_timestamp: 40 };
    let mut a = Exe::new("/bin/a".to_string(), true, 0, &clock);
    a.running_inc_time(10, &clock);
    assert_eq!(a.time, 10);
    let mut b = Exe::new("/bin/b".to_string(), false, 0, &clock);
    b.running_inc_time(10, &clock);
    assert_eq!(b.time, 0);
}

#[test]
fn register_exe_numbers_by_position() {
    let mut state = State::new();
    for (i, path) in ["/bin/a", "/bin/b", "/bin/c"].iter().enumerate() {
        let e = exe(path, false, &state);
        assert!(state.register_exe(e, false, 20).unwrap().is_empty());
        assert_eq!(state.exes[i].seq, i as i32 + 1);
    }
    assert_eq!(state.exe_seq, 3);
    assert!(state.chains.is_empty());
}

#[test]
fn register_exe_refuses_duplicates() {
    let mut state = State::new();
    let e = exe("/bin/a", false, &state);
    state.register_exe(e, true, 20).unwrap();
    let again = exe("/bin/a", true, &state);
    assert_eq!(state.register_exe(again, true, 20), Err(Failure::DuplicateExe));
    assert_eq!(state.exes.len(), 1);
    assert_eq!(state.exe_seq, 1);
    state.exe_seq = i32::MAX;
    let other = exe("/bin/b", true, &state);
    assert_eq!(state.register_exe(other, true, 20), Err(Failure::SequenceExhausted));
}

#[test]
fn register_exe_pairs_the_new_exe_with_every_known_one() {
    let mut state = State::new();
    for path in ["/bin/a", "/bin/b", "/bin/c", "/bin/d"] {
        let e = exe(path, false, &state);
        state.register_exe(e, true, 20).unwrap();
    }
    assert_eq!(pairs(&state), vec![(0, 1), (0, 2), (1, 2), (0, 3), (1, 3), (2, 3)]);
    for x in 0..4 {
        for y in 0..4 {
            let count = state
                .chains
                .iter()
                .filter(|c| (c.a == x && c.b == y) || (c.a == y && c.b == x))
                .count();
            assert_eq!(count, if x == y { 0 } else { 1 });
            assert_eq!(state.linked(x, y), x != y);
        }
    }
    assert!(state.chains.iter().all(|c| c.cycle == 20));
}

#[test]
fn register_exe_reports_the_first_transitions() {
    let mut state = State::new();
    state.time = 10;
    state.last_running_timestamp = 10;
    let a = exe("/bin/a", true, &state);
    state.register_exe(a, true, 20).unwrap();
    state.time = 30;
    state.last_running_timestamp = 30;
    let b = exe("/bin/b", true, &state);
    let updates = state.register_exe(b, true, 20).unwrap();
    // a changed at 10 and is not running any more at 30; b runs since 30.
    assert_eq!(updates.len(), 1);
    assert_eq!(updates[0].chain, 0);
    assert_eq!(updates[0].transition.from, 0);
    assert_eq!(updates[0].transition.to, 2);
    assert_eq!(updates[0].transition.elapsed, 20);
    assert_eq!(updates[0].transition.denominator, 1);
    assert_eq!(state.chains[0].state, 2);
    assert_eq!(state.chains[0].change_timestamp, 30);
}

#[test]
fn map_exe_registers_new_regions_and_adds_up_sizes() {
    let mut state = State::new();
    let a = exe("/bin/a", false, &state);
    let b = exe("/bin/b", false, &state);
    state.register_exe(a, false, 20).unwrap();
    state.register_exe(b, false, 20).unwrap();
    assert_eq!(state.map_exe(0, region("/lib/c", 0, 100), PROB_ONE), Ok(0));
    assert_eq!(state.map_exe(0, region("/lib/m", 0, 50), PROB_ONE), Ok(1));
    assert_eq!(state.map_exe(1, region("/lib/c", 0, 100), PROB_ONE), Ok(0));
    assert_eq!(state.map_exe(0, region("/lib/c", 0, 100), 5), Ok(0));
    assert_eq!(state.maps.len(), 2);
    assert_eq!(state.exemaps.len(), 3);
    assert_eq!(state.exes[0].size, 150);
    assert_eq!(state.exes[1].size, 100);
    assert!(state.exemaps.iter().all(|u| u.prob == PROB_ONE));
    assert!(state.has_exemap(1, 0));
    assert!(!state.has_exemap(1, 1));
    assert_eq!(f64::from_bits(PROB_ONE), 1.0);
}

#[test]
fn map_exe_fails_only_for_a_new_region_without_a_number() {
    let mut state = State::new();
    let a = exe("/bin/a", false, &state);
    state.register_exe(a, false, 20).unwrap();
    state.register_map(region("/lib/c", 0, 100)).unwrap();
    state.map_seq = i32::MAX;
    assert_eq!(state.map_exe(0, region("/lib/c", 0, 100), PROB_ONE), Ok(0));
    assert_eq!(
        state.map_exe(0, region("/lib/m", 0, 100), PROB_ONE),
        Err(Failure::SequenceExhausted)
    );
    assert_eq!(state.exemaps.len(), 1);
}

#[test]
fn set_block_and_time_to_leave() {
    let mut state = State::new();
    state.register_map(region("/a", 0, 10)).unwrap();
    assert!(state.set_block(&region("/a", 0, 10), 77));
    assert!(!state.set_block(&region("/b", 0, 10), 78));
    assert_eq!(state.maps[0].block, 77);
    for path in ["/bin/a", "/bin/b"] {
        let e = exe(path, false, &state);
        state.register_exe(e, true, 20).unwrap();
    }
    assert!(state.set_time_to_leave(0, 2, 2.5f64.to_bits()));
    assert!(!state.set_time_to_leave(1, 2, 1));
    assert!(!state.set_time_to_leave(0, 4, 1));
    assert_eq!(state.chains[0].time_to_leave, [0, 0, 2.5f64.to_bits(), 0]);
}

#[test]
fn can_update_checks_the_counters() {
    let mut state = State::new();
    for path in ["/bin/a", "/bin/b"] {
        let e = exe(path, false, &state);
        state.register_exe(e, true, 20).unwrap();
    }
    state.time = 100;
    assert!(state.can_update());
    state.exes[1].time = i32::MAX - 99;
    assert!(!state.can_update());
    state.exes[1].time = i32::MAX - 100;
    assert!(state.can_update());
    state.chains[0].time = i32::MAX;
    assert!(!state.can_update());
    state.chains[0].time = 0;
    state.chains[0].weight[1][1] = i32::MAX;
    assert!(!state.can_update());
    state.chains[0].change_timestamp = 100;
    assert!(state.can_update());
    state.last_accounting_timestamp = i32::MIN;
    assert!(!state.can_update());
}

#[test]
fn note_blocks_writes_places_back() {
    let mut state = State::new();
    state.register_map(region("/a", 0, 10)).unwrap();
    state.register_map(region("/b", 0, 10)).unwrap();
    let mut looked_up = vec![region("/b", 0, 10), region("/nowhere", 0, 10), region("/a", 0, 10)];
    looked_up[0].block = 5;
    looked_up[1].block = 6;
    looked_up[2].block = 7;
    state.note_blocks(&looked_up);
    assert_eq!(state.maps[0].block, 7);
    assert_eq!(state.maps[1].block, 5);
    assert_eq!(state.maps.len(), 2);
    assert_eq!(state.maps[0].seq, 1);
}
