use rustload::markov::{correlation, get_markov_state, Chain, Correlation, Endpoint, Transition};

fn end(running: bool, change_timestamp: i32) -> Endpoint {
    Endpoint { running, change_timestamp }
}

fn blank() -> Chain {
    Chain::new(0, 1, end(false, 0), end(false, 0), 20, false, 0).0
}

fn balanced(chain: &Chain) -> bool {
    (0..4).all(|s| {
        let others: i32 = (0..4).filter(|j| *j != s).map(|j| chain.weight[s][j]).sum();
        others == chain.weight[s][s] && (0..4).all(|j| chain.weight[s][j] >= 0)
    })
}

#[test]
fn markov_state_from_running_bits() {
    assert_eq!(get_markov_state(false, false), 0);
    assert_eq!(get_markov_state(true, false), 1);
    assert_eq!(get_markov_state(false, true), 2);
    assert_eq!(get_markov_state(true, true), 3);
}

#[test]
fn new_chain_without_initialize_is_blank() {
    let (chain, transition) = Chain::new(3, 5, end(true, 7), end(true, 9), 20, false, 100);
    assert_eq!(transition, None);
    assert_eq!(chain.a, 3);
    assert_eq!(chain.b, 5);
    assert_eq!(chain.state, 0);
    assert_eq!(chain.time, 0);
    assert_eq!(chain.change_timestamp, 0);
    assert_eq!(chain.cycle, 20);
    assert_eq!(chain.weight, [[0; 4]; 4]);
    assert_eq!(chain.time_to_leave, [0; 4]);
}

#[test]
fn new_chain_where_an_exe_never_changed_starts_now() {
    let (chain, transition) = Chain::new(0, 1, end(true, 0), end(false, 5), 20, true, 100);
    assert_eq!(transition, None);
    assert_eq!(chain.state, 1);
    assert_eq!(chain.change_timestamp, 100);
    assert_eq!(chain.weight, [[0; 4]; 4]);
}

#[test]
fn new_chain_records_the_change_of_the_newer_exe() {
    // a changed at 40 and runs; b changed at 100 (now) and runs: at time 40
    // only a ran, so the chain starts in state 1 and moves to state 3.
    let (chain, transition) = Chain::new(0, 1, end(true, 40), end(true, 100), 20, true, 100);
    assert_eq!(
        transition,
        Some(Transition { from: 1, to: 3, elapsed: 60, denominator: 1 })
    );
    assert_eq!(chain.state, 3);
    assert_eq!(chain.change_timestamp, 100);
    let mut weight = [[0; 4]; 4];
    weight[1][1] = 1;
    weight[1][3] = 1;
    assert_eq!(chain.weight, weight);
    assert!(balanced(&chain));
}

#[test]
fn new_chain_with_both_changes_in_the_past() {
    // a changed at 40, b at 30, both before now: entry at 40, b's bit stays.
    let (chain, transition) = Chain::new(0, 1, end(false, 40), end(true, 30), 20, true, 100);
    assert_eq!(transition, None);
    assert_eq!(chain.state, 2);
    assert_eq!(chain.change_timestamp, 40);
    // a changed at 40, b at 70: at time 40 b was in its other state.
    let (chain, transition) = Chain::new(0, 1, end(false, 40), end(true, 70), 20, true, 100);
    assert_eq!(
        transition,
        Some(Transition { from: 0, to: 2, elapsed: 60, denominator: 1 })
    );
    assert_eq!(chain.state, 2);
    assert_eq!(chain.change_timestamp, 100);
}

#[test]
fn state_changed_counts_the_transition() {
    let mut chain = blank();
    let t = chain.state_changed(10, 1);
    assert_eq!(t, Some(Transition { from: 0, to: 1, elapsed: 10, denominator: 1 }));
    assert_eq!(chain.state, 1);
    assert_eq!(chain.change_timestamp, 10);
    assert_eq!(chain.weight[0][0], 1);
    assert_eq!(chain.weight[0][1], 1);
    let t = chain.state_changed(25, 3);
    assert_eq!(t, Some(Transition { from: 1, to: 3, elapsed: 15, denominator: 1 }));
    let t = chain.state_changed(30, 0);
    assert_eq!(t, Some(Transition { from: 3, to: 0, elapsed: 5, denominator: 1 }));
    let t = chain.state_changed(50, 1);
    assert_eq!(t, Some(Transition { from: 0, to: 1, elapsed: 20, denominator: 2 }));
    assert_eq!(chain.weight[0], [2, 2, 0, 0]);
    assert_eq!(chain.weight[1], [0, 1, 0, 1]);
    assert_eq!(chain.weight[3], [1, 0, 0, 1]);
    assert_eq!(chain.weight[2], [0, 0, 0, 0]);
    assert!(balanced(&chain));
    assert_eq!(chain.time_to_leave, [0; 4]);
    assert_eq!(chain.time, 0);
}

#[test]
fn state_changed_to_the_same_state_changes_nothing() {
    let mut chain = blank();
    chain.state_changed(10, 2);
    let before = chain;
    assert_eq!(chain.state_changed(20, 2), None);
    assert_eq!(chain, before);
}

#[test]
fn state_changed_at_the_time_of_entry_changes_nothing() {
    let mut chain = blank();
    chain.state_changed(10, 2);
    let before = chain;
    assert_eq!(chain.state_changed(10, 3), None);
    assert_eq!(chain, before);
    assert_eq!(chain.state_changed(9, 3), None);
    assert_eq!(chain, before);
}

#[test]
fn state_follows_the_running_bits_after_a_change() {
    for a in [false, true] {
        for b in [false, true] {
            for start in 0..4usize {
                let mut chain = blank();
                chain.state_changed(5, start);
                let current = get_markov_state(a, b);
                chain.state_changed(6, current);
                assert_eq!(chain.state, (a as usize) | ((b as usize) << 1));
                assert!(balanced(&chain));
            }
        }
    }
}

#[test]
fn elapsed_time_does_not_overflow() {
    let mut chain = blank();
    chain.change_timestamp = i32::MIN;
    let t = chain.state_changed(i32::MAX, 3).unwrap();
    assert_eq!(t.elapsed, i32::MAX as i64 - i32::MIN as i64);
}

#[test]
fn check_room_sees_a_full_counter() {
    let mut chain = blank();
    assert!(chain.check_room());
    chain.weight[2][2] = i32::MAX;
    assert!(!chain.check_room());
    chain.weight[2][2] = i32::MAX - 1;
    assert!(chain.check_room());
}

#[test]
fn chain_time_grows_only_in_state_three() {
    let mut chain = blank();
    chain.running_inc_time(10);
    assert_eq!(chain.time, 0);
    chain.state_changed(1, 3);
    chain.running_inc_time(10);
    chain.running_inc_time(5);
    assert_eq!(chain.time, 15);
}

#[test]
fn correlation_is_zero_where_an_exe_always_or_never_ran() {
    let zero = Correlation { numerator: 0, denominator_sq: 0 };
    assert_eq!(correlation(100, 100, 40, 40), zero);
    assert_eq!(correlation(100, 40, 100, 40), zero);
    assert_eq!(correlation(100, 0, 40, 0), zero);
    assert_eq!(correlation(100, 40, 0, 0), zero);
    assert_eq!(correlation(0, 0, 0, 0), zero);
}

#[test]
fn correlation_of_twins_is_one() {
    let c = correlation(100, 50, 50, 50);
    assert_eq!(c, Correlation { numerator: 2500, denominator_sq: 6_250_000 });
    assert_eq!(c.numerator as f64 / (c.denominator_sq as f64).sqrt(), 1.0);
}

#[test]
fn correlation_formula() {
    // t = 10, a = 4, b = 5, ab = 3: 10*3 - 4*5 = 10; 4*5*6*5 = 600.
    assert_eq!(correlation(10, 4, 5, 3), Correlation { numerator: 10, denominator_sq: 600 });
    // never together: 10*0 - 20 = -20.
    assert_eq!(correlation(10, 4, 5, 0), Correlation { numerator: -20, denominator_sq: 600 });
}

#[test]
fn correlation_at_the_limits_of_its_inputs() {
    let c = correlation(i32::MIN, i32::MAX, i32::MAX, i32::MIN);
    let t = i32::MIN as i128;
    let a = i32::MAX as i128;
    assert_eq!(c.numerator, t * t - a * a);
    assert_eq!(c.denominator_sq, a * a * (t - a) * (t - a));
}

#[test]
fn correlation_stays_within_one() {
    for t in 1..12 {
        for a in 0..=t {
            for b in 0..=t {
                let low = if a + b > t { a + b - t } else { 0 };
                for ab in low..=a.min(b) {
                    let c = correlation(t, a, b, ab);
                    assert!(c.numerator * c.numerator <= c.denominator_sq);
                }
            }
        }
    }
}
