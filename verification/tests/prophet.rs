use rustload::markov::Correlation;
use rustload::proc::MemInfo;
use rustload::prophet::{
    keys_without_bids, memory_budget, predict, rank, readahead, select, Bid, Step,
};
use rustload::state::{Exe, Region, State, PROB_ONE};

fn mem(total: u32, free: u32, cached: u32) -> MemInfo {
    MemInfo { total, free, buffers: 0, cached, pagein: 0, pageout: 0 }
}

fn region(path: &str, length: u64) -> Region {
    Region::new(path.to_string(), 0, length)
}

fn two_exes() -> State {
    let mut state = State::new();
    for path in ["/bin/a", "/bin/b"] {
        let exe = Exe::new(path.to_string(), false, 0, &state.clock());
        state.register_exe(exe, true, 20).unwrap();
    }
    state.map_exe(0, region("/lib/a", 4096), PROB_ONE).unwrap();
    state.map_exe(1, region("/lib/b", 8192), PROB_ONE).unwrap();
    state.map_exe(1, region("/lib/a", 4096), PROB_ONE).unwrap();
    state
}

fn key(lnprob: f64) -> i64 {
    let bits = lnprob.to_bits() as i64;
    if lnprob == 0.0 {
        0
    } else if bits < 0 {
        bits ^ i64::MAX
    } else {
        bits
    }
}

#[test]
fn budget_formula() {
    // max(0, 1000000 * -10 / 100 + 400000 * 50 / 100) + 0 = 100000
    assert_eq!(memory_budget(&mem(1_000_000, 400_000, 300_000), -10, 50, 0), 100_000);
    // max(0, -100000 + 50000) + 300000 * 20 / 100 = 60000
    assert_eq!(memory_budget(&mem(1_000_000, 100_000, 300_000), -10, 50, 20), 60_000);
    // the cached share may take the budget below zero
    assert_eq!(memory_budget(&mem(1_000_000, 100_000, 300_000), -10, 50, -20), -60_000);
    // a percentage is taken of the whole figure
    assert_eq!(memory_budget(&mem(150, 0, 0), 50, 0, 0), 75);
    assert_eq!(memory_budget(&mem(99, 199, 0), 100, 100, 100), 298);
    assert_eq!(memory_budget(&mem(99, 199, 50), 1, 1, 1), 1);
}

#[test]
fn budget_rounds_each_share_toward_zero() {
    assert_eq!(memory_budget(&mem(199, 0, 0), 50, 0, 0), 99);
    assert_eq!(memory_budget(&mem(0, 0, 199), 0, 0, -50), -99);
    assert_eq!(memory_budget(&mem(0, 0, 1), 0, 0, -99), 0);
    // -99 / 100 and 199 / 100 are rounded apart, then added
    assert_eq!(memory_budget(&mem(99, 199, 0), -1, 1, 0), 1);
}

#[test]
fn budget_clamps_percentages() {
    assert_eq!(
        memory_budget(&mem(1000, 1000, 1000), 5000, -5000, 101),
        memory_budget(&mem(1000, 1000, 1000), 100, -100, 100)
    );
    assert_eq!(memory_budget(&mem(1000, 0, 0), i32::MAX, 0, 0), 1000);
    assert_eq!(memory_budget(&mem(0, 0, 1000), 0, 0, i32::MIN), -1000);
    assert_eq!(
        memory_budget(&mem(u32::MAX, u32::MAX, u32::MAX), 100, 100, 100),
        3 * u32::MAX as i64
    );
}

#[test]
fn budget_is_zero_without_percentages() {
    assert_eq!(memory_budget(&mem(u32::MAX, u32::MAX, u32::MAX), 0, 0, 0), 0);
}

#[test]
fn rank_orders_by_key_and_then_by_position() {
    assert_eq!(rank(&vec![5, -3, 0, -3, 7, i64::MIN]), vec![5, 1, 3, 2, 0, 4]);
    assert_eq!(rank(&vec![]), Vec::<usize>::new());
    assert_eq!(rank(&vec![1, 1, 1]), vec![0, 1, 2]);
}

#[test]
fn rank_follows_log_probabilities() {
    let lnprobs = [-0.5, 0.0, 1.0, -2.0, -0.0, -1e-300];
    let keys: Vec<i64> = lnprobs.iter().map(|p| key(*p)).collect();
    assert_eq!(rank(&keys), vec![3, 0, 5, 1, 4, 2]);
    for (p, k) in lnprobs.iter().zip(&keys) {
        assert_eq!(*p < 0.0, *k < 0);
    }
}

#[test]
fn select_takes_likely_regions_within_the_budget() {
    let maps = vec![region("/a", 10 * 1024), region("/b", 20 * 1024), region("/c", 5 * 1024), region("/d", 1024)];
    let keys = vec![-1, -5, 3, -2];
    let order = rank(&keys);
    assert_eq!(order, vec![1, 3, 0, 2]);
    // b (20) fits 25, d (1) fits 5, a (10) does not fit 4, c is not likely
    let (chosen, left) = select(&maps, &keys, &order, 25);
    let names: Vec<&str> = chosen.iter().map(|r| r.path.as_str()).collect();
    assert_eq!(names, vec!["/b", "/d"]);
    assert_eq!(left, 4);
}

#[test]
fn select_with_an_exact_fit_and_rounding_down() {
    let maps = vec![region("/a", 2048 + 1023), region("/b", 1024)];
    let keys = vec![-1, -1];
    let (chosen, left) = select(&maps, &keys, &rank(&keys), 2);
    assert_eq!(chosen.len(), 1);
    assert_eq!(chosen[0].path, "/a");
    assert_eq!(left, 0);
    let (chosen, left) = select(&vec![region("/c", 1500)], &vec![-1], &vec![0], 1);
    assert_eq!(chosen.len(), 1);
    assert_eq!(left, 0);
}

#[test]
fn select_nothing_small_without_a_budget() {
    let maps = vec![region("/tiny", 100), region("/empty", 0)];
    let keys = vec![-1, -1];
    let (chosen, left) = select(&maps, &keys, &rank(&keys), 0);
    assert!(chosen.is_empty());
    assert_eq!(left, 0);
    let (chosen, left) = select(&maps, &keys, &rank(&keys), 1);
    assert_eq!(chosen.len(), 2);
    assert_eq!(left, 1);
}

#[test]
fn a_region_that_fits_the_share_of_the_whole_figure_is_chosen() {
    let mut state = State::new();
    state.register_map(region("/sixty", 61440)).unwrap();
    let selection = readahead(&mut state, mem(150, 0, 0), &vec![-1], 50, 0, 0);
    assert_eq!(selection.budget, 75);
    assert_eq!(selection.maps.len(), 1);
    assert_eq!(selection.remaining, 15);
}

#[test]
fn readahead_with_zero_percentages_selects_not_even_a_small_region() {
    let mut state = State::new();
    state.register_map(region("/tiny", 100)).unwrap();
    let selection = readahead(&mut state, mem(8_000_000, 4_000_000, 2_000_000), &vec![-1], 0, 0, 0);
    assert_eq!(selection.budget, 0);
    assert!(selection.maps.is_empty());
}

#[test]
fn select_nothing_without_a_budget() {
    let maps = vec![region("/a", 4096), region("/b", 8192)];
    let keys = vec![i64::MIN, -1];
    let (chosen, left) = select(&maps, &keys, &rank(&keys), 0);
    assert!(chosen.is_empty());
    assert_eq!(left, 0);
    let (chosen, left) = select(&maps, &keys, &rank(&keys), -5);
    assert!(chosen.is_empty());
    assert_eq!(left, -5);
}

#[test]
fn select_nothing_that_is_not_likely() {
    let maps = vec![region("/a", 4096), region("/b", 8192)];
    let keys = vec![0, 1];
    let (chosen, left) = select(&maps, &keys, &rank(&keys), 1_000_000);
    assert!(chosen.is_empty());
    assert_eq!(left, 1_000_000);
}

#[test]
fn readahead_with_zero_percentages_selects_nothing() {
    let mut state = two_exes();
    state.time = 42;
    let snapshot = mem(8_000_000, 4_000_000, 2_000_000);
    let selection = readahead(&mut state, snapshot, &vec![i64::MIN, -1], 0, 0, 0);
    assert_eq!(selection.budget, 0);
    assert_eq!(selection.remaining, 0);
    assert!(selection.maps.is_empty());
    assert_eq!(selection.order, vec![0, 1]);
    assert_eq!(state.memstat, snapshot);
    assert_eq!(state.memstat_timestamp, 42);
}

#[test]
fn readahead_selects_within_the_budget() {
    let mut state = two_exes();
    // budget: 50 * (1000 / 100) = 500 KiB
    let selection = readahead(&mut state, mem(0, 1000, 0), &vec![-1, -2], 0, 50, 0);
    assert_eq!(selection.budget, 500);
    let names: Vec<&str> = selection.maps.iter().map(|r| r.path.as_str()).collect();
    assert_eq!(names, vec!["/lib/b", "/lib/a"]);
    assert_eq!(selection.remaining, 500 - 8 - 4);
    assert_eq!(selection.maps[0].seq, 2);
}

#[test]
fn an_idle_model_predicts_nothing() {
    let state = two_exes();
    let steps = predict(&state, true);
    assert_eq!(
        steps,
        vec![
            Step::ZeroExe { exe: 0 },
            Step::MapAdd { map: 0, exe: 0 },
            Step::ZeroExe { exe: 1 },
            Step::MapAdd { map: 1, exe: 1 },
            Step::MapAdd { map: 0, exe: 1 },
        ]
    );
    // carrying the steps out leaves every log-probability at zero
    let mut exe_lnprob = vec![1.0f64; 2];
    let mut map_lnprob = vec![0.0f64; 2];
    for step in &steps {
        match step {
            Step::ZeroExe { exe } => exe_lnprob[*exe] = 0.0,
            Step::MapAdd { map, exe } => map_lnprob[*map] += exe_lnprob[*exe],
            Step::MapCertain { map } => map_lnprob[*map] = 1.0,
            Step::Bid(_) => panic!("no chain may bid"),
        }
    }
    assert_eq!(map_lnprob, vec![0.0, 0.0]);
    let keys: Vec<i64> = map_lnprob.iter().map(|p| key(*p)).collect();
    let (chosen, _) = select(&state.maps, &keys, &rank(&keys), 1_000_000);
    assert!(chosen.is_empty());
}

#[test]
fn a_running_exe_marks_its_regions_as_needed() {
    let mut state = two_exes();
    state.exes[0].running_timestamp = 5;
    let steps = predict(&state, false);
    assert_eq!(steps[1], Step::MapCertain { map: 0 });
    assert_eq!(steps[3], Step::MapAdd { map: 1, exe: 1 });
}

#[test]
fn a_trained_chain_bids_for_the_exe_that_is_not_running() {
    let mut state = two_exes();
    state.time = 100;
    state.exes[0].time = 40;
    state.exes[1].time = 50;
    state.chains[0].time = 30;
    state.chains[0].state = 1;
    state.chains[0].weight[1] = [1, 4, 0, 3];
    let steps = predict(&state, true);
    let bid = Bid {
        chain: 0,
        exe: 1,
        state: 1,
        cycle: 20,
        toward: 3,
        leaving: 4,
        correlation: Some(Correlation {
            numerator: 100 * 30 - 40 * 50,
            denominator_sq: 40 * 50 * 60 * 50,
        }),
    };
    assert_eq!(
        steps,
        vec![
            Step::ZeroExe { exe: 0 },
            Step::Bid(bid),
            Step::MapAdd { map: 0, exe: 0 },
            Step::ZeroExe { exe: 1 },
            Step::Bid(bid),
            Step::MapAdd { map: 1, exe: 1 },
            Step::MapAdd { map: 0, exe: 1 },
        ]
    );
    let without = predict(&state, false);
    assert_eq!(without[1], Step::Bid(Bid { correlation: None, ..bid }));
}

#[test]
fn a_chain_in_state_zero_bids_for_both_exes() {
    let mut state = two_exes();
    state.chains[0].weight[0] = [5, 2, 1, 2];
    let steps = predict(&state, false);
    let for_a = Bid { chain: 0, exe: 0, state: 0, cycle: 20, toward: 4, leaving: 5, correlation: None };
    let for_b = Bid { chain: 0, exe: 1, state: 0, cycle: 20, toward: 3, leaving: 5, correlation: None };
    assert_eq!(steps[1], Step::Bid(for_a));
    assert_eq!(steps[2], Step::Bid(for_b));
    assert_eq!(steps.iter().filter(|s| matches!(s, Step::Bid(_))).count(), 4);
}

#[test]
fn a_chain_in_state_three_does_not_bid() {
    let mut state = two_exes();
    state.chains[0].state = 3;
    state.chains[0].weight[3] = [1, 0, 0, 1];
    let steps = predict(&state, true);
    assert!(steps.iter().all(|s| !matches!(s, Step::Bid(_))));
}

#[test]
fn an_idle_model_has_zero_keys_and_selects_nothing() {
    let mut state = two_exes();
    let steps = predict(&state, true);
    let keys = keys_without_bids(&steps, state.maps.len()).unwrap();
    assert_eq!(keys, vec![0, 0]);
    let selection = readahead(&mut state, mem(1_000_000, 1_000_000, 0), &keys, -10, 50, 0);
    assert_eq!(selection.budget, 400_000);
    assert!(selection.maps.is_empty());
}

#[test]
fn keys_are_left_to_the_caller_where_a_step_bids_or_marks() {
    let mut state = two_exes();
    state.exes[0].running_timestamp = 5;
    assert_eq!(keys_without_bids(&predict(&state, true), 2), None);
    let mut state = two_exes();
    state.chains[0].weight[0] = [5, 2, 1, 2];
    assert_eq!(keys_without_bids(&predict(&state, false), 2), None);
    assert_eq!(keys_without_bids(&Vec::new(), 3), Some(vec![0, 0, 0]));
}
