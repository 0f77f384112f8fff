use rustload::state::{Exe, Region, State, PROB_ONE};

fn four_exes() -> State {
    let mut state = State::new();
    for path in ["/bin/a", "/bin/b", "/bin/c", "/bin/d"] {
        let exe = Exe::new(path.to_string(), false, 0, &state.clock());
        state.register_exe(exe, true, 20).unwrap();
    }
    state.map_exe(0, Region::new("/lib/x".to_string(), 0, 10), PROB_ONE).unwrap();
    state.map_exe(1, Region::new("/lib/x".to_string(), 0, 10), PROB_ONE).unwrap();
    state.map_exe(1, Region::new("/lib/y".to_string(), 0, 10), PROB_ONE).unwrap();
    state.map_exe(3, Region::new("/lib/y".to_string(), 0, 10), PROB_ONE).unwrap();
    state.running_exes = vec![3, 1, 0];
    state.state_changed_exes = vec![1];
    state.new_running_exes = vec![2, 1];
    state
}

#[test]
fn removing_an_exe_removes_its_chains_and_uses() {
    let mut state = four_exes();
    state.chains[4].time = 44; // the chain of b and d
    state.chains[1].time = 11; // the chain of a and c
    let removed = state.remove_exe(1);
    assert_eq!(removed.path, "/bin/b");
    assert_eq!(removed.seq, 2);
    let paths: Vec<&str> = state.exes.iter().map(|e| e.path.as_str()).collect();
    assert_eq!(paths, vec!["/bin/a", "/bin/c", "/bin/d"]);
    let seqs: Vec<i32> = state.exes.iter().map(|e| e.seq).collect();
    assert_eq!(seqs, vec![1, 3, 4]);
    let pairs: Vec<(usize, usize, i32)> = state.chains.iter().map(|c| (c.a, c.b, c.time)).collect();
    assert_eq!(pairs, vec![(0, 1, 11), (0, 2, 0), (1, 2, 0)]);
    let uses: Vec<(usize, usize)> = state.exemaps.iter().map(|u| (u.exe, u.map)).collect();
    assert_eq!(uses, vec![(0, 0), (2, 1)]);
    assert_eq!(state.running_exes, vec![2, 0]);
    assert!(state.state_changed_exes.is_empty());
    assert_eq!(state.new_running_exes, vec![1]);
    assert_eq!(state.maps.len(), 2);
    assert_eq!(state.exe_seq, 4);
    for x in 0..3 {
        for y in 0..3 {
            assert_eq!(state.linked(x, y), x != y);
        }
    }
}

#[test]
fn a_removed_exe_can_be_registered_again_under_a_new_number() {
    let mut state = four_exes();
    let removed = state.remove_exe(3);
    assert_eq!(state.chains.len(), 3);
    assert_eq!(state.register_exe(removed, true, 20).map(|u| u.len()), Ok(0));
    assert_eq!(state.exes[3].seq, 5);
    assert_eq!(state.chains.len(), 6);
}

#[test]
fn removing_the_only_exe_leaves_an_empty_model() {
    let mut state = State::new();
    let exe = Exe::new("/bin/a".to_string(), false, 0, &state.clock());
    state.register_exe(exe, true, 20).unwrap();
    state.map_exe(0, Region::new("/lib/x".to_string(), 0, 10), PROB_ONE).unwrap();
    state.remove_exe(0);
    assert!(state.exes.is_empty() && state.chains.is_empty() && state.exemaps.is_empty());
    assert!(!state.map_in_use(&Region::new("/lib/x".to_string(), 0, 10)));
    assert!(state.unregister_map(&Region::new("/lib/x".to_string(), 0, 10)));
    assert!(state.maps.is_empty());
}
