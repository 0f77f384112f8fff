use rustload::markov::{Correlation, DwellUpdate};
use rustload::proc::{MemInfo, ProcMap, Process};
use rustload::prophet::{predict, readahead, Bid, Step};
use rustload::spy::{scan, update_model, Probe};
use rustload::state::State;

const CYCLE: u32 = 20;

fn process(pid: i32, exe: &str) -> Process {
    Process { pid, exe: exe.to_string() }
}

fn probe(path: &str, pid: i32, lib: &str) -> Probe {
    Probe {
        path: path.to_string(),
        pid,
        maps: Some(vec![ProcMap {
            start: 0,
            end: 4 * 1024 * 1024,
            offset: 0,
            path: Some(lib.to_string()),
        }]),
    }
}

fn fold(state: &mut State, updates: &[DwellUpdate]) {
    for update in updates {
        let from = update.transition.from;
        let mut mean = f64::from_bits(state.chains[update.chain].time_to_leave[from]);
        mean += (update.transition.elapsed as f64 - mean) / update.transition.denominator as f64;
        assert!(state.set_time_to_leave(update.chain, from, mean.to_bits()));
    }
}

fn half_cycle(state: &mut State, running: &[(i32, &str)], probes: Vec<Probe>) {
    let processes: Vec<Process> = running.iter().map(|(pid, exe)| process(*pid, exe)).collect();
    scan(state, &processes, 1, None);
    state.mark_scanned();
    state.advance(CYCLE / 2);
    assert!(state.can_update());
    let updates = update_model(state, &probes, &["/".to_string()], 2_000_000, CYCLE);
    fold(state, &updates);
    state.advance(CYCLE / 2);
}

fn correlation(c: Option<Correlation>) -> f64 {
    match c {
        None => 1.0,
        Some(c) if c.denominator_sq <= 0 => 0.0,
        Some(c) => c.numerator as f64 / (c.denominator_sq as f64).sqrt(),
    }
}

fn bid(state: &State, bid: &Bid, exe_lnprob: &mut [f64]) {
    let mean = f64::from_bits(state.chains[bid.chain].time_to_leave[bid.state]);
    if bid.leaving == 0 || mean <= 1.0 {
        return;
    }
    let p_state_change = -(-(bid.cycle as f64) * 1.5 / mean).exp_m1();
    let p_y_runs_next = bid.toward as f64 / (bid.leaving as f64 + 0.01);
    let p_runs = correlation(bid.correlation).abs() * p_state_change * p_y_runs_next;
    exe_lnprob[bid.exe] += (1.0 - p_runs).ln();
}

fn evaluate(state: &State, steps: &[Step]) -> (Vec<f64>, Vec<f64>) {
    let mut exe_lnprob = vec![0.0f64; state.exes.len()];
    let mut map_lnprob = vec![0.0f64; state.maps.len()];
    for step in steps {
        match step {
            Step::ZeroExe { exe } => exe_lnprob[*exe] = 0.0,
            Step::Bid(b) => bid(state, b, &mut exe_lnprob),
            Step::MapCertain { map } => map_lnprob[*map] = 1.0,
            Step::MapAdd { map, exe } => map_lnprob[*map] += exe_lnprob[*exe],
        }
    }
    (exe_lnprob, map_lnprob)
}

fn key(lnprob: f64) -> i64 {
    if lnprob == 0.0 {
        0
    } else {
        let bits = lnprob.to_bits() as i64;
        if bits < 0 {
            bits ^ i64::MAX
        } else {
            bits
        }
    }
}

fn trained() -> State {
    let mut state = State::new();
    // the two are found and probed while both run
    half_cycle(
        &mut state,
        &[(10, "/usr/bin/x"), (11, "/usr/bin/y")],
        vec![probe("/usr/bin/x", 10, "/usr/lib/x.so"), probe("/usr/bin/y", 11, "/usr/lib/y.so")],
    );
    half_cycle(&mut state, &[], vec![]);
    for _ in 0..10 {
        half_cycle(&mut state, &[(10, "/usr/bin/x")], vec![]);
        half_cycle(&mut state, &[(10, "/usr/bin/x"), (11, "/usr/bin/y")], vec![]);
        half_cycle(&mut state, &[], vec![]);
    }
    state
}

#[test]
fn training_counts_what_it_saw() {
    let state = trained();
    assert_eq!(state.exes.len(), 2);
    assert_eq!(state.chains.len(), 1);
    let chain = &state.chains[0];
    assert_eq!(chain.state, 0);
    assert_eq!(chain.weight[0], [10, 10, 0, 0]);
    assert_eq!(chain.weight[1], [0, 10, 0, 10]);
    assert_eq!(chain.weight[3], [11, 0, 0, 11]);
    assert_eq!(f64::from_bits(chain.time_to_leave[1]), 20.0);
    assert_eq!(f64::from_bits(chain.time_to_leave[0]), 20.0);
    assert_eq!(state.exes[0].time, 10 + 10 * 40);
    assert_eq!(state.exes[1].time, 10 + 10 * 20);
    assert_eq!(chain.time, 10 + 10 * 20);
}

#[test]
fn a_trained_model_reads_ahead_for_the_companion() {
    let mut state = trained();
    // only x runs
    scan(&mut state, &vec![process(10, "/usr/bin/x")], 1, None);
    state.advance(CYCLE / 2);
    let updates = update_model(&mut state, &Vec::new(), &["/".to_string()], 2_000_000, CYCLE);
    fold(&mut state, &updates);
    assert_eq!(state.chains[0].state, 1);

    let steps = predict(&state, true);
    let (exe_lnprob, map_lnprob) = evaluate(&state, &steps);
    assert!(exe_lnprob[1] < 0.0);
    assert_eq!(map_lnprob[0], 1.0);
    assert!(map_lnprob[1] < 0.0);

    let keys: Vec<i64> = map_lnprob.iter().map(|p| key(*p)).collect();
    let memstat = MemInfo { total: 1_000_000, free: 1_000_000, buffers: 0, cached: 0, pagein: 0, pageout: 0 };
    let selection = readahead(&mut state, memstat, &keys, -10, 50, 0);
    assert_eq!(selection.budget, 400_000);
    assert_eq!(selection.maps.len(), 1);
    assert_eq!(selection.maps[0].path, "/usr/lib/y.so");
    assert_eq!(selection.remaining, 400_000 - 4096);

    // without a budget nothing is read ahead
    let selection = readahead(&mut state, memstat, &keys, 0, 0, 0);
    assert!(selection.maps.is_empty());
}

#[test]
fn an_untrained_model_reads_nothing_ahead() {
    let mut state = State::new();
    half_cycle(
        &mut state,
        &[(10, "/usr/bin/x"), (11, "/usr/bin/y")],
        vec![probe("/usr/bin/x", 10, "/usr/lib/x.so"), probe("/usr/bin/y", 11, "/usr/lib/y.so")],
    );
    // nothing runs any more, and no chain has ever left the state it is in
    scan(&mut state, &Vec::new(), 1, None);
    for chain in state.chains.iter_mut() {
        chain.weight = [[0; 4]; 4];
        chain.state = 0;
    }
    let steps = predict(&state, true);
    let (_, map_lnprob) = evaluate(&state, &steps);
    assert_eq!(map_lnprob, vec![0.0, 0.0]);
    let keys: Vec<i64> = map_lnprob.iter().map(|p| key(*p)).collect();
    let memstat = MemInfo { total: 1_000_000, free: 1_000_000, buffers: 0, cached: 0, pagein: 0, pageout: 0 };
    assert!(readahead(&mut state, memstat, &keys, -10, 50, 0).maps.is_empty());
}
