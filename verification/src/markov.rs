//! The four-state Markov chain kept for a pair of executables.
//!
//! State `s` of a chain over the executables `a` and `b` has bit 0 set while
//! `a` runs and bit 1 set while `b` runs. The chain counts the transitions it
//! has seen; the mean dwell times are real numbers and are kept only as bit
//! patterns that the caller computes.

use vstd::prelude::*;

verus! {

/// What a chain reads of the model's clock.
#[derive(Clone, Copy, Debug, PartialEq, Eq)]
pub struct Clock {
    /// Logical time, in seconds.
    pub time: i32,
    /// Logical time of the last scan for running processes.
    pub last_running_timestamp: i32,
}

/// What a chain reads of one of its two executables.
#[derive(Clone, Copy, Debug, PartialEq, Eq)]
pub struct Endpoint {
    /// Whether the executable was seen in the last scan.
    pub running: bool,
    /// Logical time at which it last started or stopped running.
    pub change_timestamp: i32,
}

/// A transition that a chain has just recorded, for the caller to fold into
/// the mean dwell time of the state that was left:
/// `mean += (elapsed - mean) / denominator`.
#[derive(Clone, Copy, Debug, PartialEq, Eq)]
pub struct Transition {
    /// The state that was left.
    pub from: usize,
    /// The state that was entered.
    pub to: usize,
    /// Seconds spent in the state that was left.
    pub elapsed: i64,
    /// Number of transitions from `from` to `to` seen so far, this one
    /// included.
    pub denominator: i32,
}

/// A transition together with the chain that recorded it.
#[derive(Clone, Copy, Debug, PartialEq, Eq)]
pub struct DwellUpdate {
    /// Index of the chain.
    pub chain: usize,
    /// What the chain recorded.
    pub transition: Transition,
}

/// The Pearson correlation of two executables as an exact ratio: its value is
/// `numerator / sqrt(denominator_sq)`, and zero where `denominator_sq` is not
/// positive.
#[derive(Clone, Copy, Debug, PartialEq, Eq)]
pub struct Correlation {
    pub numerator: i128,
    pub denominator_sq: i128,
}

/// Transition counts and the rest of a chain's persistent data.
#[derive(Clone, Copy, Debug, PartialEq, Eq)]
pub struct Chain {
    /// Index of executable `a`.
    pub a: usize,
    /// Index of executable `b`.
    pub b: usize,
    /// Current state, 0 to 3.
    pub state: usize,
    /// Total seconds both executables have been running together.
    pub time: i32,
    /// Mean dwell time of each state, as the bit pattern of a double.
    pub time_to_leave: [u64; 4],
    /// `weight[i][j]` counts the transitions from state `i` to state `j`;
    /// `weight[i][i]` counts all transitions out of `i`.
    pub weight: [[i32; 4]; 4],
    /// Logical time at which the current state was entered.
    pub change_timestamp: i32,
    /// The model period, in seconds.
    pub cycle: u32,
}

/// The state of a chain whose endpoints run as given.
pub open spec fn pair_state(a_running: bool, b_running: bool) -> int {
    (if a_running { 1int } else { 0int }) + (if b_running { 2int } else { 0int })
}

/// Whether the bit of `a` is set in state `s`.
pub open spec fn a_bit(s: int) -> bool {
    s == 1 || s == 3
}

/// Whether the bit of `b` is set in state `s`.
pub open spec fn b_bit(s: int) -> bool {
    s == 2 || s == 3
}

/// The number of transitions counted from state `s` to the other states.
pub open spec fn spread(w: [[i32; 4]; 4], s: int) -> int {
    w[s][0] + w[s][1] + w[s][2] + w[s][3] - w[s][s]
}

/// No count is negative, and the count of transitions out of each state is
/// the sum of the counts to the other states.
pub open spec fn weights_balanced(w: [[i32; 4]; 4]) -> bool {
    &&& forall|i: int, j: int| 0 <= i < 4 && 0 <= j < 4 ==> #[trigger] w[i][j] >= 0
    &&& forall|s: int| 0 <= s < 4 ==> #[trigger] spread(w, s) == w[s][s]
}

/// The matrix `w` after one more transition from `from` to `to`.
pub open spec fn weights_after(w: [[i32; 4]; 4], from: int, to: int, next: [[i32; 4]; 4]) -> bool {
    forall|i: int, j: int|
        0 <= i < 4 && 0 <= j < 4 ==> #[trigger] next[i][j] == w[i][j] + (if i == from && (j == from
            || j == to) {
            1int
        } else {
            0int
        })
}

/// The state and the time of entry that a new chain starts from, before its
/// first transition is recorded.
///
/// The chain starts in the present state at the present time. Where both
/// executables have changed before, the time of entry moves back to the
/// change of `a` if that lies in the past, and the bit of each executable
/// that changed after the time of entry is toggled.
pub open spec fn initial_entry(a: Endpoint, b: Endpoint, now: i32) -> (int, i32) {
    if a.change_timestamp > 0 && b.change_timestamp > 0 {
        let entered = if a.change_timestamp < now {
            a.change_timestamp
        } else {
            now
        };
        let a_then = if a.change_timestamp > entered {
            !a.running
        } else {
            a.running
        };
        let b_then = if b.change_timestamp > entered {
            !b.running
        } else {
            b.running
        };
        (pair_state(a_then, b_then), entered)
    } else {
        (pair_state(a.running, b.running), now)
    }
}

/// The state of a chain whose endpoints run as given.
pub fn get_markov_state(a_running: bool, b_running: bool) -> (s: usize)
    ensures
        s == pair_state(a_running, b_running),
{
    let low: usize = if a_running { 1 } else { 0 };
    let high: usize = if b_running { 2 } else { 0 };
    low + high
}

/// The numerator of the correlation: `t * ab - a * b`.
pub open spec fn correlation_numerator(t: int, a: int, b: int, ab: int) -> int {
    t * ab - a * b
}

/// The square of the denominator of the correlation:
/// `a * b * (t - a) * (t - b)`.
pub open spec fn correlation_denominator_sq(t: int, a: int, b: int) -> int {
    (a * b) * ((t - a) * (t - b))
}

/// The correlation is zero by definition where one of the executables has
/// never run or has always run.
pub open spec fn correlation_degenerate(t: int, a: int, b: int) -> bool {
    a == 0 || a == t || b == 0 || b == t
}

/// The correlation of two executables that have run for `a` and `b` seconds,
/// `ab` of them together, out of `t` seconds observed.
pub open spec fn spec_correlation(t: int, a: int, b: int, ab: int) -> Correlation {
    if correlation_degenerate(t, a, b) {
        Correlation { numerator: 0, denominator_sq: 0 }
    } else {
        Correlation {
            numerator: correlation_numerator(t, a, b, ab) as i128,
            denominator_sq: correlation_denominator_sq(t, a, b) as i128,
        }
    }
}

/// Both parts of the correlation fit their fields.
proof fn lemma_correlation_fits(t: int, a: int, b: int, ab: int)
    requires
        i32::MIN <= t <= i32::MAX,
        i32::MIN <= a <= i32::MAX,
        i32::MIN <= b <= i32::MAX,
        i32::MIN <= ab <= i32::MAX,
    ensures
        -0x4000_0000_0000_0000 <= t * ab <= 0x4000_0000_0000_0000,
        -0x4000_0000_0000_0000 <= a * b <= 0x4000_0000_0000_0000,
        -0x1_0000_0000 < t - a < 0x1_0000_0000,
        -0x1_0000_0000 < t - b < 0x1_0000_0000,
        -0x1_0000_0000_0000_0000 <= (t - a) * (t - b) <= 0x1_0000_0000_0000_0000,
        i128::MIN <= correlation_numerator(t, a, b, ab) <= i128::MAX,
        i128::MIN <= correlation_denominator_sq(t, a, b) <= i128::MAX,
{
    lemma_product_bound(t, ab, 0x8000_0000);
    lemma_product_bound(a, b, 0x8000_0000);
    lemma_product_bound(t - a, t - b, 0x1_0000_0000);
    let both = a * b;
    let neither = (t - a) * (t - b);
    assert(-0x4000_0000_0000_0000 * 0x1_0000_0000_0000_0000 <= both * neither
        <= 0x4000_0000_0000_0000 * 0x1_0000_0000_0000_0000) by (nonlinear_arith)
        requires
            -0x4000_0000_0000_0000 <= both <= 0x4000_0000_0000_0000,
            -0x1_0000_0000_0000_0000 <= neither <= 0x1_0000_0000_0000_0000,
    ;
}

/// The product of two numbers of magnitude at most `m` has magnitude at most
/// `m * m`.
proof fn lemma_product_bound(x: int, y: int, m: int)
    requires
        -m <= x <= m,
        -m <= y <= m,
    ensures
        -(m * m) <= x * y <= m * m,
{
    assert(-(m * m) <= x * y <= m * m) by (nonlinear_arith)
        requires
            -m <= x <= m,
            -m <= y <= m,
    ;
}

/// The correlation of two executables that have run for `a` and `b` seconds,
/// `ab` of them together, out of `t` seconds observed.
pub fn correlation(t: i32, a: i32, b: i32, ab: i32) -> (c: Correlation)
    ensures
        c == spec_correlation(t as int, a as int, b as int, ab as int),
{
    if a == 0 || a == t || b == 0 || b == t {
        return Correlation { numerator: 0, denominator_sq: 0 };
    }
    proof {
        lemma_correlation_fits(t as int, a as int, b as int, ab as int);
    }
    let t: i128 = t as i128;
    let a: i128 = a as i128;
    let b: i128 = b as i128;
    let ab: i128 = ab as i128;
    let numerator: i128 = t * ab - a * b;
    let both: i128 = a * b;
    let neither: i128 = (t - a) * (t - b);
    let denominator_sq: i128 = both * neither;
    Correlation { numerator, denominator_sq }
}

/// With `a` running all the time the correlation is zero.
pub proof fn lemma_correlation_of_constant(t: int, b: int, ab: int)
    ensures
        spec_correlation(t, t, b, ab).numerator == 0,
        spec_correlation(t, t, b, ab).denominator_sq == 0,
{
}

/// Two executables that each ran half the time, and always together, have
/// correlation one: the numerator is positive and its square is the square of
/// the denominator.
pub proof fn lemma_correlation_of_twins(t: int, a: int)
    requires
        0 < a <= i32::MAX,
        t == 2 * a,
        t <= i32::MAX,
    ensures
        spec_correlation(t, a, a, a).numerator > 0,
        spec_correlation(t, a, a, a).numerator * spec_correlation(t, a, a, a).numerator
            == spec_correlation(t, a, a, a).denominator_sq,
{
    lemma_correlation_fits(t, a, a, a);
    assert(correlation_numerator(t, a, a, a) == a * a) by (nonlinear_arith)
        requires
            t == 2 * a,
    ;
    assert(correlation_denominator_sq(t, a, a) == (a * a) * (a * a)) by (nonlinear_arith)
        requires
            t == 2 * a,
    ;
    assert(a * a > 0) by (nonlinear_arith)
        requires
            a > 0,
    ;
}

/// The correlation lies between minus one and one: where the time run
/// together is consistent with the two running times, the square of the
/// numerator is at most the square of the denominator.
pub proof fn lemma_correlation_bounded(t: int, a: int, b: int, ab: int)
    requires
        0 <= ab <= a <= t,
        ab <= b <= t,
        a + b - ab <= t,
    ensures
        correlation_numerator(t, a, b, ab) * correlation_numerator(t, a, b, ab)
            <= correlation_denominator_sq(t, a, b),
{
    let both = ab;
    let only_a = a - ab;
    let only_b = b - ab;
    let neither = t - a - b + ab;
    let agree = both * neither;
    let differ = only_a * only_b;
    let n = correlation_numerator(t, a, b, ab);
    assert(n == agree - differ) by (nonlinear_arith)
        requires
            n == t * ab - a * b,
            agree == ab * (t - a - b + ab),
            differ == (a - ab) * (b - ab),
    ;
    assert(agree >= 0 && differ >= 0) by (nonlinear_arith)
        requires
            both >= 0,
            neither >= 0,
            only_a >= 0,
            only_b >= 0,
            agree == both * neither,
            differ == only_a * only_b,
    ;
    let sum = agree + differ;
    assert(n * n <= sum * sum) by (nonlinear_arith)
        requires
            n == agree - differ,
            sum == agree + differ,
            agree >= 0,
            differ >= 0,
    ;
    let p = a * (t - a);
    let q = b * (t - b);
    assert(p >= sum) by (nonlinear_arith)
        requires
            p == (both + only_a) * (neither + only_b),
            sum == both * neither + only_a * only_b,
            both >= 0,
            neither >= 0,
            only_a >= 0,
            only_b >= 0,
    ;
    assert(q >= sum) by (nonlinear_arith)
        requires
            q == (both + only_b) * (neither + only_a),
            sum == both * neither + only_a * only_b,
            both >= 0,
            neither >= 0,
            only_a >= 0,
            only_b >= 0,
    ;
    assert(p * q >= sum * sum) by (nonlinear_arith)
        requires
            p >= sum,
            q >= sum,
            sum >= 0,
    ;
    assert(correlation_denominator_sq(t, a, b) == p * q) by (nonlinear_arith)
        requires
            p == a * (t - a),
            q == b * (t - b),
            correlation_denominator_sq(t, a, b) == (a * b) * ((t - a) * (t - b)),
    ;
}

impl Chain {
    /// The state is one of the four, and the counts are balanced.
    pub open spec fn wf(&self) -> bool {
        &&& self.state <= 3
        &&& weights_balanced(self.weight)
    }

    /// Every count of transitions out of a state can still grow.
    pub open spec fn has_room(&self) -> bool {
        forall|s: int| 0 <= s < 4 ==> (#[trigger] self.weight[s][s]) < i32::MAX
    }

    /// Whether every count of transitions out of a state can still grow.
    pub fn check_room(&self) -> (r: bool)
        ensures
            r == self.has_room(),
    {
        let r = self.weight[0][0] < i32::MAX && self.weight[1][1] < i32::MAX && self.weight[2][2]
            < i32::MAX && self.weight[3][3] < i32::MAX;
        proof {
            if r {
                assert forall|s: int| 0 <= s < 4 implies (#[trigger] self.weight[s][s])
                    < i32::MAX by {
                    if s == 0 {
                    } else if s == 1 {
                    } else if s == 2 {
                    } else {
                    }
                }
            } else {
                assert(self.weight[0][0] >= i32::MAX || self.weight[1][1] >= i32::MAX
                    || self.weight[2][2] >= i32::MAX || self.weight[3][3] >= i32::MAX);
            }
        }
        r
    }

    /// The chain for `a` and `b` has seen nothing: state 0, entered at time
    /// 0, all counts and dwell times zero.
    pub open spec fn blank(&self, a: usize, b: usize, cycle: u32) -> bool {
        &&& self.a == a
        &&& self.b == b
        &&& self.cycle == cycle
        &&& self.state == 0
        &&& self.time == 0
        &&& self.change_timestamp == 0
        &&& forall|i: int| 0 <= i < 4 ==> #[trigger] self.time_to_leave[i] == 0
        &&& forall|i: int, j: int| 0 <= i < 4 && 0 <= j < 4 ==> #[trigger] self.weight[i][j] == 0
    }

    /// `made` is the chain for `a` and `b` as it is first made.
    ///
    /// Without `initialize` it has seen nothing. With it, the chain starts
    /// from [`initial_entry`] and, where that lies in the past and differs
    /// from the present state, records at once the transition to the present
    /// state.
    pub open spec fn spec_new(
        a: usize,
        b: usize,
        exe_a: Endpoint,
        exe_b: Endpoint,
        cycle: u32,
        initialize: bool,
        now: i32,
        made: Chain,
    ) -> bool {
        if initialize {
            let (state, entered) = initial_entry(exe_a, exe_b, now);
            let current = pair_state(exe_a.running, exe_b.running);
            let moved = entered < now && state != current;
            &&& made.a == a
            &&& made.b == b
            &&& made.cycle == cycle
            &&& made.time == 0
            &&& made.state == (if moved {
                current
            } else {
                state
            })
            &&& made.change_timestamp == (if moved {
                now
            } else {
                entered
            })
            &&& forall|i: int| 0 <= i < 4 ==> #[trigger] made.time_to_leave[i] == 0
            &&& forall|i: int, j: int|
                0 <= i < 4 && 0 <= j < 4 ==> #[trigger] made.weight[i][j] == (if moved && i == state
                    && (j == state || j == current) {
                    1int
                } else {
                    0int
                })
        } else {
            made.blank(a, b, cycle)
        }
    }

    /// The chain for `a` and `b` as it is first made: the one chain that
    /// [`Chain::spec_new`] describes.
    pub open spec fn made(
        a: usize,
        b: usize,
        exe_a: Endpoint,
        exe_b: Endpoint,
        cycle: u32,
        initialize: bool,
        now: i32,
    ) -> Chain {
        choose|c: Chain| Self::spec_new(a, b, exe_a, exe_b, cycle, initialize, now, c)
    }

    /// [`Chain::spec_new`] describes one chain only.
    pub proof fn lemma_made_unique(
        a: usize,
        b: usize,
        exe_a: Endpoint,
        exe_b: Endpoint,
        cycle: u32,
        initialize: bool,
        now: i32,
        c: Chain,
    )
        requires
            Self::spec_new(a, b, exe_a, exe_b, cycle, initialize, now, c),
        ensures
            c == Self::made(a, b, exe_a, exe_b, cycle, initialize, now),
    {
        let d = Self::made(a, b, exe_a, exe_b, cycle, initialize, now);
        assert(Self::spec_new(a, b, exe_a, exe_b, cycle, initialize, now, d));
        assert(c.time_to_leave =~= d.time_to_leave) by {
            assert forall|i: int| 0 <= i < 4 implies c.time_to_leave[i] == d.time_to_leave[i] by {
                assert(c.time_to_leave[i] == 0);
                assert(d.time_to_leave[i] == 0);
            }
        }
        assert(c.weight =~= d.weight) by {
            assert forall|i: int| 0 <= i < 4 implies c.weight[i] == d.weight[i] by {
                assert forall|j: int| 0 <= j < 4 implies c.weight[i][j] == d.weight[i][j] by {
                    assert(c.weight[i][j] == d.weight[i][j]);
                }
                assert(c.weight[i] =~= d.weight[i]);
            }
        }
    }

    /// The chain that is first made for `a` and `b` is well formed and joins
    /// `a` and `b`.
    pub proof fn lemma_made_wf(
        a: usize,
        b: usize,
        exe_a: Endpoint,
        exe_b: Endpoint,
        cycle: u32,
        initialize: bool,
        now: i32,
    )
        ensures
            Self::spec_new(
                a,
                b,
                exe_a,
                exe_b,
                cycle,
                initialize,
                now,
                Self::made(a, b, exe_a, exe_b, cycle, initialize, now),
            ),
            Self::made(a, b, exe_a, exe_b, cycle, initialize, now).wf(),
            Self::made(a, b, exe_a, exe_b, cycle, initialize, now).a == a,
            Self::made(a, b, exe_a, exe_b, cycle, initialize, now).b == b,
    {
        let witness = Self::witness(a, b, exe_a, exe_b, cycle, initialize, now);
        assert(Self::spec_new(a, b, exe_a, exe_b, cycle, initialize, now, witness));
        let c = Self::made(a, b, exe_a, exe_b, cycle, initialize, now);
        assert(Self::spec_new(a, b, exe_a, exe_b, cycle, initialize, now, c));
        assert forall|s: int| 0 <= s < 4 implies #[trigger] spread(c.weight, s) == c.weight[s][s] by {
            assert(c.weight[s][0] >= 0 && c.weight[s][1] >= 0 && c.weight[s][2] >= 0
                && c.weight[s][3] >= 0);
        }
    }

    /// A chain that [`Chain::spec_new`] describes.
    proof fn witness(
        a: usize,
        b: usize,
        exe_a: Endpoint,
        exe_b: Endpoint,
        cycle: u32,
        initialize: bool,
        now: i32,
    ) -> (c: Chain)
        ensures
            Self::spec_new(a, b, exe_a, exe_b, cycle, initialize, now, c),
    {
        let (state, entered) = initial_entry(exe_a, exe_b, now);
        let current = pair_state(exe_a.running, exe_b.running);
        let moved = initialize && entered < now && state != current;
        let zeros = vstd::array::spec_array_fill_for_copy_type::<i32, 4>(0i32);
        let row = vstd::array::spec_array_update(
            vstd::array::spec_array_update(zeros, state, 1i32),
            current,
            1i32,
        );
        let rows = vstd::array::spec_array_fill_for_copy_type::<[i32; 4], 4>(zeros);
        let weight = if moved {
            vstd::array::spec_array_update(rows, state, row)
        } else {
            rows
        };
        broadcast use vstd::array::axiom_spec_array_fill_for_copy_type;
        broadcast use vstd::array::axiom_spec_array_update;
        broadcast use vstd::array::lemma_array_index;
        Chain {
            a,
            b,
            state: if !initialize {
                0usize
            } else if moved {
                current as usize
            } else {
                state as usize
            },
            time: 0,
            time_to_leave: vstd::array::spec_array_fill_for_copy_type::<u64, 4>(0u64),
            weight,
            change_timestamp: if !initialize {
                0i32
            } else if moved {
                now
            } else {
                entered
            },
            cycle,
        }
    }

    /// The transition that a chain for `a` and `b` records as it is made.
    pub open spec fn spec_first_transition(
        exe_a: Endpoint,
        exe_b: Endpoint,
        initialize: bool,
        now: i32,
    ) -> Option<Transition> {
        let (state, entered) = initial_entry(exe_a, exe_b, now);
        let current = pair_state(exe_a.running, exe_b.running);
        if initialize && entered < now && state != current {
            Some(
                Transition {
                    from: state as usize,
                    to: current as usize,
                    elapsed: (now - entered) as i64,
                    denominator: 1,
                },
            )
        } else {
            None
        }
    }

    /// `next` is this chain after it was told at time `now` that its
    /// endpoints are in state `current`.
    ///
    /// Nothing changes unless the state differs from the recorded one and the
    /// recorded one was entered before `now`. Otherwise the transition is
    /// counted, the chain enters `current`, and the time of entry is `now`.
    pub open spec fn spec_state_changed(&self, now: i32, current: int, next: Chain) -> bool {
        if self.transits(now, current) {
            &&& next.state == current
            &&& next.change_timestamp == now
            &&& weights_after(self.weight, self.state as int, current, next.weight)
            &&& next.a == self.a
            &&& next.b == self.b
            &&& next.time == self.time
            &&& next.time_to_leave == self.time_to_leave
            &&& next.cycle == self.cycle
        } else {
            next == *self
        }
    }

    /// This chain after it was told at time `now` that its endpoints are in
    /// state `current`: the one chain that [`Chain::spec_state_changed`]
    /// describes.
    pub open spec fn told(&self, now: i32, current: int) -> Chain {
        choose|next: Chain| self.spec_state_changed(now, current, next)
    }

    /// [`Chain::spec_state_changed`] describes one chain only.
    pub proof fn lemma_told_unique(&self, now: i32, current: int, next: Chain)
        requires
            self.spec_state_changed(now, current, next),
        ensures
            next == self.told(now, current),
    {
        let other = self.told(now, current);
        assert(self.spec_state_changed(now, current, other));
        if self.transits(now, current) {
            assert(next.weight =~= other.weight) by {
                assert forall|i: int| 0 <= i < 4 implies next.weight[i] == other.weight[i] by {
                    assert forall|j: int| 0 <= j < 4 implies next.weight[i][j]
                        == other.weight[i][j] by {
                        assert(next.weight[i][j] == other.weight[i][j]);
                    }
                    assert(next.weight[i] =~= other.weight[i]);
                }
            }
        }
    }

    /// Telling a chain of the state of its endpoints leaves it well formed,
    /// and, where the chain had entered its state before `now`, in the state
    /// that it was told of.
    pub proof fn lemma_told(&self, now: i32, a_running: bool, b_running: bool)
        requires
            self.wf(),
            self.has_room(),
        ensures
            self.spec_state_changed(
                now,
                pair_state(a_running, b_running),
                self.told(now, pair_state(a_running, b_running)),
            ),
            self.told(now, pair_state(a_running, b_running)).wf(),
            self.change_timestamp < now ==> self.told(
                now,
                pair_state(a_running, b_running),
            ).state == pair_state(a_running, b_running),
    {
        let current = pair_state(a_running, b_running);
        let from = self.state as int;
        broadcast use vstd::array::axiom_spec_array_update;
        broadcast use vstd::array::lemma_array_index;

        assert(spread(self.weight, from) == self.weight[from][from]);
        assert(forall|j: int| 0 <= j < 4 ==> #[trigger] self.weight[from][j] >= 0);
        assert(self.weight[from][from] < i32::MAX);
        let row = vstd::array::spec_array_update(
            vstd::array::spec_array_update(
                self.weight[from],
                from,
                (self.weight[from][from] + 1) as i32,
            ),
            current,
            (self.weight[from][current] + 1) as i32,
        );
        let witness = if self.transits(now, current) {
            Chain {
                state: current as usize,
                change_timestamp: now,
                weight: vstd::array::spec_array_update(self.weight, from, row),
                ..*self
            }
        } else {
            *self
        };
        assert(self.spec_state_changed(now, current, witness));
        let next = self.told(now, current);
        assert(self.spec_state_changed(now, current, next));
        if self.transits(now, current) {
            assert forall|i: int, j: int| 0 <= i < 4 && 0 <= j < 4 implies #[trigger] next.weight[i][j]
                >= 0 by {
                assert(self.weight[i][j] >= 0);
            }
            assert forall|s: int| 0 <= s < 4 implies #[trigger] spread(next.weight, s)
                == next.weight[s][s] by {
                assert(spread(self.weight, s) == self.weight[s][s]);
            }
        }
    }

    /// Whether telling the chain at time `now` that its endpoints are in state
    /// `current` makes it record a transition.
    pub open spec fn transits(&self, now: i32, current: int) -> bool {
        self.change_timestamp < now && self.state != current
    }

    /// The transition recorded when the chain is told at time `now` that its
    /// endpoints are in state `current`.
    pub open spec fn spec_transition(&self, now: i32, current: int) -> Option<Transition> {
        if self.transits(now, current) {
            Some(
                Transition {
                    from: self.state,
                    to: current as usize,
                    elapsed: (now - self.change_timestamp) as i64,
                    denominator: (self.weight[self.state as int][current] + 1) as i32,
                },
            )
        } else {
            None
        }
    }

    /// Makes the chain for the executables with indices `a` and `b`.
    pub fn new(
        a: usize,
        b: usize,
        exe_a: Endpoint,
        exe_b: Endpoint,
        cycle: u32,
        initialize: bool,
        now: i32,
    ) -> (made: (Chain, Option<Transition>))
        ensures
            Self::spec_new(a, b, exe_a, exe_b, cycle, initialize, now, made.0),
            made.0 == Self::made(a, b, exe_a, exe_b, cycle, initialize, now),
            made.0.wf(),
            made.1 == Self::spec_first_transition(exe_a, exe_b, initialize, now),
    {
        let mut chain = Chain {
            a,
            b,
            state: 0,
            time: 0,
            time_to_leave: [0u64; 4],
            weight: [[0i32; 4]; 4],
            change_timestamp: 0,
            cycle,
        };
        assert(chain.blank(a, b, cycle));
        assert(weights_balanced(chain.weight));
        if !initialize {
            proof {
                Self::lemma_made_unique(a, b, exe_a, exe_b, cycle, initialize, now, chain);
            }
            return (chain, None);
        }
        let current = get_markov_state(exe_a.running, exe_b.running);
        let mut a_then = exe_a.running;
        let mut b_then = exe_b.running;
        let mut entered = now;
        if exe_a.change_timestamp > 0 && exe_b.change_timestamp > 0 {
            if exe_a.change_timestamp < now {
                entered = exe_a.change_timestamp;
            }
            if exe_a.change_timestamp > entered {
                a_then = !a_then;
            }
            if exe_b.change_timestamp > entered {
                b_then = !b_then;
            }
        }
        chain.state = get_markov_state(a_then, b_then);
        chain.change_timestamp = entered;
        let transition = chain.state_changed(now, current);
        proof {
            Self::lemma_made_unique(a, b, exe_a, exe_b, cycle, initialize, now, chain);
        }
        (chain, transition)
    }

    /// Tells the chain at time `now` that its endpoints are in state
    /// `current`, and returns the transition that it recorded, if any.
    pub fn state_changed(&mut self, now: i32, current: usize) -> (transition: Option<Transition>)
        requires
            old(self).wf(),
            current <= 3,
            old(self).transits(now, current as int) ==> old(self).weight[old(self).state as int][old(self).state as int] < i32::MAX,
        ensures
            final(self).wf(),
            old(self).spec_state_changed(now, current as int, *final(self)),
            *final(self) == old(self).told(now, current as int),
            transition == old(self).spec_transition(now, current as int),
            old(self).change_timestamp < now ==> final(self).state == current,
    {
        if self.change_timestamp >= now {
            proof {
                old(self).lemma_told_unique(now, current as int, *self);
            }
            return None;
        }
        let from = self.state;
        if from == current {
            proof {
                old(self).lemma_told_unique(now, current as int, *self);
            }
            return None;
        }
        let ghost before = self.weight;
        proof {
            assert(spread(before, from as int) == before[from as int][from as int]);
            assert(before[from as int][current as int] >= 0);
            assert(forall|j: int| 0 <= j < 4 ==> #[trigger] before[from as int][j] >= 0);
            assert(before[from as int][current as int] <= before[from as int][from as int]);
        }
        let elapsed: i64 = now as i64 - self.change_timestamp as i64;
        self.weight[from][from] = self.weight[from][from] + 1;
        self.weight[from][current] = self.weight[from][current] + 1;
        let denominator = self.weight[from][current];
        self.state = current;
        self.change_timestamp = now;
        proof {
            let after = self.weight;
            assert(weights_after(before, from as int, current as int, after));
            assert forall|i: int, j: int| 0 <= i < 4 && 0 <= j < 4 implies #[trigger] after[i][j]
                >= 0 by {
                assert(before[i][j] >= 0);
            }
            assert forall|s: int| 0 <= s < 4 implies #[trigger] spread(after, s) == after[s][s] by {
                assert(spread(before, s) == before[s][s]);
            }
            old(self).lemma_told_unique(now, current as int, *self);
        }
        Some(Transition { from, to: current, elapsed, denominator })
    }

    /// Adds `period` seconds to the time both executables have run together,
    /// if both are running.
    pub fn running_inc_time(&mut self, period: i32)
        requires
            old(self).state == 3 ==> i32::MIN <= old(self).time + period <= i32::MAX,
        ensures
            *final(self) == (Chain {
                time: if old(self).state == 3 {
                    (old(self).time + period) as i32
                } else {
                    old(self).time
                },
                ..*old(self)
            }),
    {
        if self.state == 3 {
            self.time = self.time + period;
        }
    }
}

/// A chain that is told, at a time later than its entry into its state, what
/// state its two executables are in, is in that state afterwards, and that
/// state is one of the four.
pub proof fn lemma_state_follows(c: Chain, now: i32, a_running: bool, b_running: bool, next: Chain)
    requires
        c.state <= 3,
        c.change_timestamp < now,
        c.spec_state_changed(now, pair_state(a_running, b_running), next),
    ensures
        next.state == pair_state(a_running, b_running),
        0 <= next.state <= 3,
        next.state == (if a_running {
            1usize
        } else {
            0usize
        }) | (if b_running {
            2usize
        } else {
            0usize
        }),
{
    assert(0usize | 0usize == 0usize) by (bit_vector);
    assert(1usize | 0usize == 1usize) by (bit_vector);
    assert(0usize | 2usize == 2usize) by (bit_vector);
    assert(1usize | 2usize == 3usize) by (bit_vector);
}

/// The counts of transitions to the other states never add up to more than
/// the count of transitions out of a state: where that holds of a chain
/// before it is told the state of its executables, it holds afterwards.
/// No count shrinks, and a count to another state that is positive comes
/// with a positive count out of the state.
pub proof fn lemma_counts_stay_balanced(c: Chain, now: i32, current: int, next: Chain)
    requires
        c.state <= 3,
        0 <= current <= 3,
        forall|i: int, j: int| 0 <= i < 4 && 0 <= j < 4 ==> #[trigger] c.weight[i][j] >= 0,
        forall|s: int| 0 <= s < 4 ==> #[trigger] spread(c.weight, s) <= c.weight[s][s],
        c.spec_state_changed(now, current, next),
    ensures
        forall|s: int| 0 <= s < 4 ==> #[trigger] spread(next.weight, s) <= next.weight[s][s],
        forall|i: int, j: int|
            0 <= i < 4 && 0 <= j < 4 ==> #[trigger] next.weight[i][j] >= c.weight[i][j] >= 0,
        forall|s: int, j: int|
            0 <= s < 4 && 0 <= j < 4 && j != s && #[trigger] next.weight[s][j] > 0
                ==> next.weight[s][s] > 0,
        c.wf() ==> next.wf(),
{
    assert forall|s: int| 0 <= s < 4 implies #[trigger] spread(next.weight, s)
        <= next.weight[s][s] by {
        assert(spread(c.weight, s) <= c.weight[s][s]);
    }
    assert forall|i: int, j: int| 0 <= i < 4 && 0 <= j < 4 implies #[trigger] next.weight[i][j]
        >= c.weight[i][j] >= 0 by {
        assert(c.weight[i][j] >= 0);
    }
    assert forall|s: int, j: int|
        0 <= s < 4 && 0 <= j < 4 && j != s && #[trigger] next.weight[s][j] > 0 implies next.weight[s][s]
        > 0 by {
        assert(spread(next.weight, s) <= next.weight[s][s]);
        assert(next.weight[s][0] >= 0 && next.weight[s][1] >= 0 && next.weight[s][2] >= 0
            && next.weight[s][3] >= 0);
    }
    if c.wf() {
        assert forall|s: int| 0 <= s < 4 implies #[trigger] spread(next.weight, s)
            == next.weight[s][s] by {
            assert(spread(c.weight, s) == c.weight[s][s]);
        }
        assert forall|i: int, j: int| 0 <= i < 4 && 0 <= j < 4 implies #[trigger] next.weight[i][j]
            >= 0 by {
            assert(next.weight[i][j] >= c.weight[i][j] >= 0);
        }
    }
}

/// Where any transition from a state to another has been counted, the count
/// of transitions out of that state is positive, and it is never less than
/// the sum of the counts to the other states.
pub proof fn lemma_balanced_row(c: Chain, s: int, j: int)
    requires
        c.wf(),
        0 <= s < 4,
        0 <= j < 4,
        j != s,
    ensures
        spread(c.weight, s) <= c.weight[s][s],
        c.weight[s][j] > 0 ==> c.weight[s][s] > 0,
{
    assert(spread(c.weight, s) == c.weight[s][s]);
    assert(forall|k: int| 0 <= k < 4 ==> #[trigger] c.weight[s][k] >= 0);
}

} // verus!
