//! Inference: which chains bid for which executables, how much memory may be
//! used, and which regions are chosen for read-ahead.
//!
//! The probabilities themselves are real numbers and are computed by the
//! caller. [`predict`] lays out the computation as a list of steps over
//! integers; the caller carries them out and hands back, for every region, an
//! integer key that orders the regions as their log-probabilities do and is
//! negative exactly where the log-probability is. [`readahead`] then ranks
//! the regions and chooses among them under the memory budget.

use crate::common::kb;
use crate::markov::{a_bit, b_bit, correlation, spec_correlation, Correlation};
use crate::proc::MemInfo;
use crate::state::{Region, State, StateView};
use vstd::prelude::*;

verus! {

/// The integers from which the caller computes the probability that an
/// executable starts within the next period, seen from one chain that is in
/// state `state`:
///
/// - the probability of a change of state is `1 - exp(-1.5 * cycle / mean)`,
///   where `mean` is the chain's mean dwell time in `state`;
/// - the probability that the next state has the executable running is
///   `toward / (leaving + 0.01)`;
/// - the product of the two and of the magnitude of the correlation is the
///   probability `p`, and `ln(1 - p)` is added to the log-probability of the
///   executable.
///
/// Nothing is added where the mean dwell time is at most one second.
#[derive(Clone, Copy, Debug, PartialEq, Eq)]
pub struct Bid {
    /// Index of the chain that bids.
    pub chain: usize,
    /// Index of the executable that is bid for.
    pub exe: usize,
    /// State of the chain.
    pub state: usize,
    /// The model period, in seconds.
    pub cycle: u32,
    /// Number of transitions seen from `state` to the states in which the
    /// executable runs.
    pub toward: i64,
    /// Number of transitions seen out of `state`.
    pub leaving: i32,
    /// The correlation of the chain's two executables, or nothing where the
    /// correlation is not to be used and counts as one.
    pub correlation: Option<Correlation>,
}

/// One step of the computation of log-probabilities. Every region starts
/// at zero.
#[derive(Clone, Copy, Debug, PartialEq, Eq)]
pub enum Step {
    /// Set the log-probability of an executable to zero.
    ZeroExe { exe: usize },
    /// Let a chain bid for an executable.
    Bid(Bid),
    /// A running executable uses the region: set the region's
    /// log-probability to one, which marks it as needed for certain.
    MapCertain { map: usize },
    /// An executable that is not running uses the region: add the
    /// executable's log-probability to the region's.
    MapAdd { map: usize, exe: usize },
}

impl StateView {
    /// The bid of chain `k` for its endpoint `exe`, whose bit in the chain's
    /// state is `bit`.
    pub open spec fn bid(self, k: int, exe: usize, bit: int, use_correlation: bool) -> Bid {
        let c = self.chains[k];
        let s = c.state as int;
        Bid {
            chain: k as usize,
            exe,
            state: c.state,
            cycle: c.cycle,
            toward: (c.weight[s][bit] + c.weight[s][3]) as i64,
            leaving: c.weight[s][s],
            correlation: if use_correlation {
                Some(
                    spec_correlation(
                        self.time as int,
                        self.exes[c.a as int].time as int,
                        self.exes[c.b as int].time as int,
                        c.time as int,
                    ),
                )
            } else {
                None
            },
        }
    }

    /// The bids of chain `k`: none where the chain has never left its state;
    /// otherwise one for each endpoint whose bit is clear in the chain's
    /// state, `a` first.
    pub open spec fn chain_bids(self, k: int, use_correlation: bool) -> Seq<Step> {
        let c = self.chains[k];
        let s = c.state as int;
        if c.weight[s][s] == 0 {
            Seq::empty()
        } else {
            (if a_bit(s) {
                Seq::<Step>::empty()
            } else {
                seq![Step::Bid(self.bid(k, c.a, 1, use_correlation))]
            }) + (if b_bit(s) {
                Seq::<Step>::empty()
            } else {
                seq![Step::Bid(self.bid(k, c.b, 2, use_correlation))]
            })
        }
    }

    /// The bids of those of the first `n` chains that executable `exe` is an
    /// endpoint of.
    pub open spec fn exe_bids(self, exe: usize, use_correlation: bool, n: int) -> Seq<Step>
        decreases n,
    {
        if n <= 0 {
            Seq::empty()
        } else if self.chains[n - 1].a == exe || self.chains[n - 1].b == exe {
            self.exe_bids(exe, use_correlation, n - 1) + self.chain_bids(n - 1, use_correlation)
        } else {
            self.exe_bids(exe, use_correlation, n - 1)
        }
    }

    /// The step by which use `k` of a region passes on the log-probability
    /// of its executable.
    pub open spec fn map_step(self, k: int) -> Step {
        let use_ = self.exemaps[k];
        if self.exes[use_.exe as int].spec_is_running(self.clock()) {
            Step::MapCertain { map: use_.map }
        } else {
            Step::MapAdd { map: use_.map, exe: use_.exe }
        }
    }

    /// The steps for those of the first `n` uses of regions that are uses by
    /// executable `exe`.
    pub open spec fn exe_map_steps(self, exe: usize, n: int) -> Seq<Step>
        decreases n,
    {
        if n <= 0 {
            Seq::empty()
        } else if self.exemaps[n - 1].exe == exe {
            self.exe_map_steps(exe, n - 1).push(self.map_step(n - 1))
        } else {
            self.exe_map_steps(exe, n - 1)
        }
    }

    /// The steps for executable `exe`: its log-probability is set to zero,
    /// its chains bid, and the regions it uses take the result.
    pub open spec fn exe_steps(self, exe: usize, use_correlation: bool) -> Seq<Step> {
        seq![Step::ZeroExe { exe }] + self.exe_bids(
            exe,
            use_correlation,
            self.chains.len() as int,
        ) + self.exe_map_steps(exe, self.exemaps.len() as int)
    }

    /// The steps for the first `n` executables, in their order.
    pub open spec fn spec_predict(self, use_correlation: bool, n: int) -> Seq<Step>
        decreases n,
    {
        if n <= 0 {
            Seq::empty()
        } else {
            self.spec_predict(use_correlation, n - 1) + self.exe_steps(
                (n - 1) as usize,
                use_correlation,
            )
        }
    }

    /// No executable is running, and no chain has ever left the state it is
    /// in.
    pub open spec fn idle(self) -> bool {
        &&& forall|i: int|
            0 <= i < self.exes.len() ==> !(#[trigger] self.exes[i]).spec_is_running(self.clock())
        &&& forall|k: int|
            0 <= k < self.chains.len() ==> (#[trigger] self.chains[k]).weight[self.chains[k].state as int][self.chains[k].state as int]
                == 0
    }
}

/// Whether a step leaves every log-probability at zero, given that all are
/// zero before it.
pub open spec fn step_is_neutral(step: Step) -> bool {
    step is ZeroExe || step is MapAdd
}

/// Every step leaves every log-probability at zero.
pub open spec fn all_neutral(steps: Seq<Step>) -> bool {
    forall|j: int| 0 <= j < steps.len() ==> step_is_neutral(#[trigger] steps[j])
}

/// The keys of `count` regions after steps that hold no bid and mark no
/// region as needed: with nothing but zeros set and added, every
/// log-probability is zero, and so is every key. Where a step bids or marks a
/// region, the keys are for the caller to compute, and the result is nothing.
pub fn keys_without_bids(steps: &Vec<Step>, count: usize) -> (keys: Option<Vec<i64>>)
    ensures
        keys is Some <==> all_neutral(steps@),
        keys is Some ==> keys->Some_0@.len() == count && forall|i: int|
            0 <= i < count ==> #[trigger] keys->Some_0@[i] == 0,
{
    let mut j: usize = 0;
    while j < steps.len()
        invariant
            j <= steps@.len(),
            forall|i: int| 0 <= i < j ==> step_is_neutral(#[trigger] steps@[i]),
        decreases steps@.len() - j,
    {
        match steps[j] {
            Step::ZeroExe { .. } | Step::MapAdd { .. } => {},
            _ => {
                assert(!step_is_neutral(steps@[j as int]));
                return None;
            },
        }
        j = j + 1;
    }
    let mut keys: Vec<i64> = Vec::new();
    let mut i: usize = 0;
    while i < count
        invariant
            i <= count,
            keys@.len() == i,
            all_neutral(steps@),
            forall|k: int| 0 <= k < i ==> #[trigger] keys@[k] == 0,
        decreases count - i,
    {
        keys.push(0);
        i = i + 1;
    }
    Some(keys)
}

/// While no executable is running and no chain has ever left its state,
/// no chain bids and no region is marked as needed: every log-probability
/// stays zero.
pub proof fn lemma_idle_predicts_nothing(s: StateView, use_correlation: bool, n: int)
    requires
        s.wf(),
        s.idle(),
        0 <= n <= s.exes.len(),
    ensures
        forall|j: int|
            0 <= j < s.spec_predict(use_correlation, n).len() ==> step_is_neutral(
                #[trigger] s.spec_predict(use_correlation, n)[j],
            ),
    decreases n,
{
    if n > 0 {
        lemma_idle_predicts_nothing(s, use_correlation, n - 1);
        let exe = (n - 1) as usize;
        lemma_idle_bids(s, exe, use_correlation, s.chains.len() as int);
        lemma_idle_map_steps(s, exe, s.exemaps.len() as int);
        let before = s.spec_predict(use_correlation, n - 1);
        let bids = s.exe_bids(exe, use_correlation, s.chains.len() as int);
        let uses = s.exe_map_steps(exe, s.exemaps.len() as int);
        let all = s.spec_predict(use_correlation, n);
        assert(all == before + (seq![Step::ZeroExe { exe }] + bids + uses));
        assert forall|j: int| 0 <= j < all.len() implies step_is_neutral(#[trigger] all[j]) by {
            if j < before.len() {
                assert(all[j] == before[j]);
            } else if j == before.len() {
                assert(all[j] == Step::ZeroExe { exe });
            } else {
                assert(all[j] == uses[j - before.len() - 1]);
            }
        }
    }
}

/// While no chain has ever left its state, no chain bids.
proof fn lemma_idle_bids(s: StateView, exe: usize, use_correlation: bool, n: int)
    requires
        s.idle(),
        0 <= n <= s.chains.len(),
    ensures
        s.exe_bids(exe, use_correlation, n).len() == 0,
    decreases n,
{
    if n > 0 {
        lemma_idle_bids(s, exe, use_correlation, n - 1);
        assert(s.chains[n - 1].weight[s.chains[n - 1].state as int][s.chains[n - 1].state as int]
            == 0);
    }
}

/// While no executable is running, no region is marked as needed.
proof fn lemma_idle_map_steps(s: StateView, exe: usize, n: int)
    requires
        s.wf(),
        s.idle(),
        0 <= n <= s.exemaps.len(),
    ensures
        forall|j: int|
            0 <= j < s.exe_map_steps(exe, n).len() ==> (#[trigger] s.exe_map_steps(exe, n)[j])
                is MapAdd,
    decreases n,
{
    if n > 0 {
        lemma_idle_map_steps(s, exe, n - 1);
        assert(s.exemaps[n - 1].exe < s.exes.len());
        assert(!s.exes[s.exemaps[n - 1].exe as int].spec_is_running(s.clock()));
    }
}

impl State {
    /// The bids of chain `k`, added to `steps`.
    fn bid_in_exes(&self, k: usize, use_correlation: bool, steps: &mut Vec<Step>)
        requires
            self.wf(),
            k < self@.chains.len(),
        ensures
            final(steps)@ == old(steps)@ + self@.chain_bids(k as int, use_correlation),
    {
        let chain = &self.chains[k];
        assert(*chain == self@.chains[k as int]);
        assert(chain.wf() && chain.a < self@.exes.len() && chain.b < self@.exes.len());
        let s = chain.state;
        if chain.weight[s][s] == 0 {
            assert(steps@ =~= old(steps)@ + self@.chain_bids(k as int, use_correlation));
            return ;
        }
        let correlation = if use_correlation {
            Some(correlation(self.time, self.exes[chain.a].time, self.exes[chain.b].time, chain.time))
        } else {
            None
        };
        proof {
            assert(forall|i: int, j: int|
                0 <= i < 4 && 0 <= j < 4 ==> #[trigger] chain.weight[i][j] >= 0);
        }
        if s == 0 || s == 2 {
            assert(chain.weight[s as int][1] >= 0 && chain.weight[s as int][3] >= 0);
            steps.push(
                Step::Bid(
                    Bid {
                        chain: k,
                        exe: chain.a,
                        state: s,
                        cycle: chain.cycle,
                        toward: chain.weight[s][1] as i64 + chain.weight[s][3] as i64,
                        leaving: chain.weight[s][s],
                        correlation,
                    },
                ),
            );
        }
        if s == 0 || s == 1 {
            assert(chain.weight[s as int][2] >= 0 && chain.weight[s as int][3] >= 0);
            steps.push(
                Step::Bid(
                    Bid {
                        chain: k,
                        exe: chain.b,
                        state: s,
                        cycle: chain.cycle,
                        toward: chain.weight[s][2] as i64 + chain.weight[s][3] as i64,
                        leaving: chain.weight[s][s],
                        correlation,
                    },
                ),
            );
        }
        assert(steps@ =~= old(steps)@ + self@.chain_bids(k as int, use_correlation));
    }

    /// The steps for executable `exe`, added to `steps`.
    fn exe_steps(&self, exe: usize, use_correlation: bool, steps: &mut Vec<Step>)
        requires
            self.wf(),
            exe < self@.exes.len(),
        ensures
            final(steps)@ == old(steps)@ + self@.exe_steps(exe, use_correlation),
    {
        steps.push(Step::ZeroExe { exe });
        let ghost start = steps@;
        let mut k: usize = 0;
        while k < self.chains.len()
            invariant
                self.wf(),
                k <= self@.chains.len(),
                steps@ == start + self@.exe_bids(exe, use_correlation, k as int),
            decreases self@.chains.len() - k,
        {
            if self.chains[k].a == exe || self.chains[k].b == exe {
                self.bid_in_exes(k, use_correlation, steps);
                assert(steps@ =~= start + self@.exe_bids(exe, use_correlation, k + 1));
            }
            k = k + 1;
        }
        let ghost bids = steps@;
        let clock = self.clock();
        let mut m: usize = 0;
        while m < self.exemaps.len()
            invariant
                self.wf(),
                clock == self@.clock(),
                m <= self@.exemaps.len(),
                steps@ == bids + self@.exe_map_steps(exe, m as int),
            decreases self@.exemaps.len() - m,
        {
            let use_ = self.exemaps[m];
            assert(use_ == self@.exemaps[m as int]);
            assert(use_.exe < self@.exes.len());
            if use_.exe == exe {
                if self.exes[use_.exe].is_running(&clock) {
                    steps.push(Step::MapCertain { map: use_.map });
                } else {
                    steps.push(Step::MapAdd { map: use_.map, exe: use_.exe });
                }
                assert(steps@ =~= bids + self@.exe_map_steps(exe, m + 1));
            }
            m = m + 1;
        }
        assert(steps@ =~= old(steps)@ + self@.exe_steps(exe, use_correlation));
    }
}

/// Lays out the computation of the log-probabilities of all executables and
/// regions.
///
/// Every region starts at zero. Then, for each executable in turn, its
/// log-probability is set to zero, each of its chains bids, and each region
/// it uses takes the result: a region used by a running executable is marked
/// as needed for certain, any other has the executable's log-probability
/// added.
pub fn predict(state: &State, use_correlation: bool) -> (steps: Vec<Step>)
    requires
        state.wf(),
    ensures
        steps@ == state@.spec_predict(use_correlation, state@.exes.len() as int),
        state@.idle() ==> all_neutral(steps@),
{
    proof {
        if state@.idle() {
            lemma_idle_predicts_nothing(state@, use_correlation, state@.exes.len() as int);
        }
    }
    let mut steps: Vec<Step> = Vec::new();
    let mut i: usize = 0;
    while i < state.exes.len()
        invariant
            state.wf(),
            i <= state@.exes.len(),
            steps@ == state@.spec_predict(use_correlation, i as int),
        decreases state@.exes.len() - i,
    {
        state.exe_steps(i, use_correlation, &mut steps);
        i = i + 1;
    }
    steps
}

/// A percentage, held to the range from -100 to 100.
pub open spec fn clamp_percent(p: i32) -> int {
    if p < -100 {
        -100
    } else if p > 100 {
        100
    } else {
        p as int
    }
}

/// A hundredth of `x`, rounded toward zero.
pub open spec fn hundredth(x: int) -> int {
    if x >= 0 {
        x / 100
    } else {
        -((-x) / 100)
    }
}

/// The share of a figure that a percentage stands for: the figure times the
/// percentage, held to the range from -100 to 100, and of that a hundredth,
/// rounded toward zero.
pub open spec fn share_of(figure: u32, percent: i32) -> int {
    hundredth(figure * clamp_percent(percent))
}

/// The memory that may be used for read-ahead, in kibibytes:
/// `max(0, total * memtotal / 100 + free * memfree / 100)
/// + cached * memcached / 100`, where each percentage is held to the range
/// from -100 to 100.
pub open spec fn spec_budget(mem: MemInfo, memtotal: i32, memfree: i32, memcached: i32) -> int {
    let base = share_of(mem.total, memtotal) + share_of(mem.free, memfree);
    (if base < 0 {
        0
    } else {
        base
    }) + share_of(mem.cached, memcached)
}

/// A percentage, held to the range from -100 to 100.
fn clamped(p: i32) -> (r: i64)
    ensures
        r == clamp_percent(p),
{
    if p < -100 {
        -100
    } else if p > 100 {
        100
    } else {
        p as i64
    }
}

/// The share of `figure` that `percent` stands for.
fn share(figure: u32, percent: i32) -> (r: i64)
    ensures
        r == share_of(figure, percent),
        -0x1_0000_0000 <= r <= 0x1_0000_0000,
        percent == 0 ==> r == 0,
{
    let factor = clamped(percent);
    let whole: i64 = figure as i64;
    assert(-0x64_0000_0000 <= whole * factor <= 0x64_0000_0000) by (nonlinear_arith)
        requires
            -100 <= factor <= 100,
            0 <= whole <= 0xffff_ffff,
    ;
    assert(factor == 0 ==> whole * factor == 0) by (nonlinear_arith);
    let product: i64 = whole * factor;
    if product >= 0 {
        product / 100
    } else {
        -((-product) / 100)
    }
}

/// The memory that may be used for read-ahead, in kibibytes.
pub fn memory_budget(mem: &MemInfo, memtotal: i32, memfree: i32, memcached: i32) -> (r: i64)
    ensures
        r == spec_budget(*mem, memtotal, memfree, memcached),
        memtotal == 0 && memfree == 0 && memcached == 0 ==> r == 0,
{
    let base = share(mem.total, memtotal) + share(mem.free, memfree);
    let floor = if base < 0 {
        0
    } else {
        base
    };
    floor + share(mem.cached, memcached)
}

/// Region `i` is ranked before region `j`: its key is smaller, or the keys
/// are equal and it stands first in the registry.
pub open spec fn ranks_before(keys: Seq<i64>, i: int, j: int) -> bool {
    keys[i] < keys[j] || (keys[i] == keys[j] && i < j)
}

/// `order` lists the positions of all regions by ascending key, and by
/// position where keys are equal.
pub open spec fn is_ranking(keys: Seq<i64>, order: Seq<usize>) -> bool {
    &&& order.len() == keys.len()
    &&& forall|j: int| 0 <= j < order.len() ==> #[trigger] order[j] < keys.len()
    &&& forall|a: int, b: int|
        0 <= a < b < order.len() ==> ranks_before(
            keys,
            #[trigger] order[a] as int,
            #[trigger] order[b] as int,
        )
}

/// The order of pairs: by the first part, and by the second where the first
/// parts are equal.
pub open spec fn pair_le(x: (i64, usize), y: (i64, usize)) -> bool {
    x.0 < y.0 || (x.0 == y.0 && x.1 <= y.1)
}

/// Sorts pairs in ascending order with `sort_unstable` of the standard
/// library, which orders tuples by their first part and then by their second.
/// The sorted vector holds the same pairs as before, each as often as
/// before.
#[verifier::external_body]
fn sort_pairs(pairs: &mut Vec<(i64, usize)>)
    ensures
        final(pairs)@.to_multiset() == old(pairs)@.to_multiset(),
        forall|a: int, b: int|
            0 <= a <= b < final(pairs)@.len() ==> pair_le(
                #[trigger] final(pairs)@[a],
                #[trigger] final(pairs)@[b],
            ),
{
    pairs.sort_unstable()
}

/// Ranks the regions by their keys: the result lists their positions by
/// ascending key, and by position where keys are equal.
pub fn rank(keys: &Vec<i64>) -> (order: Vec<usize>)
    ensures
        is_ranking(keys@, order@),
{
    let mut pairs: Vec<(i64, usize)> = Vec::new();
    let mut i: usize = 0;
    while i < keys.len()
        invariant
            i <= keys@.len(),
            pairs@.len() == i,
            forall|j: int| 0 <= j < i ==> #[trigger] pairs@[j] == (keys@[j], j as usize),
        decreases keys@.len() - i,
    {
        pairs.push((keys[i], i));
        i = i + 1;
    }
    let ghost given = pairs@;
    sort_pairs(&mut pairs);
    proof {
        given.to_multiset_ensures();
        pairs@.to_multiset_ensures();
        assert(given.no_duplicates()) by {
            assert forall|x: int, y: int| 0 <= x < given.len() && 0 <= y < given.len() && x
                != y implies given[x] != given[y] by {
                assert(given[x].1 == x);
                assert(given[y].1 == y);
            }
        }
        given.lemma_multiset_has_no_duplicates();
        pairs@.lemma_multiset_has_no_duplicates_conv();
        assert forall|j: int| 0 <= j < pairs@.len() implies (#[trigger] pairs@[j]).1 < keys@.len()
            && pairs@[j].0 == keys@[pairs@[j].1 as int] by {
            assert(pairs@.contains(pairs@[j]));
            assert(given.to_multiset().count(pairs@[j]) > 0);
            assert(given.contains(pairs@[j]));
            let x = choose|x: int| 0 <= x < given.len() && given[x] == pairs@[j];
            assert(given[x] == (keys@[x], x as usize));
        }
    }
    let mut order: Vec<usize> = Vec::new();
    let mut j: usize = 0;
    while j < pairs.len()
        invariant
            j <= pairs@.len(),
            order@.len() == j,
            forall|x: int| 0 <= x < j ==> #[trigger] order@[x] == pairs@[x].1,
        decreases pairs@.len() - j,
    {
        order.push(pairs[j].1);
        j = j + 1;
    }
    proof {
        assert forall|a: int, b: int| 0 <= a < b < order@.len() implies ranks_before(
            keys@,
            #[trigger] order@[a] as int,
            #[trigger] order@[b] as int,
        ) by {
            assert(pair_le(pairs@[a], pairs@[b]));
            assert(pairs@[a] != pairs@[b]);
            assert(pairs@[a].0 == keys@[pairs@[a].1 as int]);
            assert(pairs@[b].0 == keys@[pairs@[b].1 as int]);
        }
        assert forall|x: int| 0 <= x < order@.len() implies #[trigger] order@[x] < keys@.len() by {
            assert(pairs@[x].1 < keys@.len());
        }
    }
    order
}

/// What is left of the budget after the walk over the first `n` ranked
/// regions.
pub open spec fn spec_remaining(
    maps: Seq<Region>,
    keys: Seq<i64>,
    order: Seq<usize>,
    budget: int,
    n: int,
) -> int
    decreases n, 0int,
{
    if n <= 0 {
        budget
    } else {
        let left = spec_remaining(maps, keys, order, budget, n - 1);
        if chosen(maps, keys, order, budget, n - 1) {
            left - maps[order[n - 1] as int].length / 1024
        } else {
            left
        }
    }
}

/// Whether the walk chooses the region ranked `j`: its key is negative,
/// something is left of the budget, and the size of the region in whole
/// kibibytes is within what is left.
pub open spec fn chosen(maps: Seq<Region>, keys: Seq<i64>, order: Seq<usize>, budget: int, j: int) -> bool
    decreases j, 1int,
{
    &&& 0 <= j
    &&& keys[order[j] as int] < 0
    &&& 0 < spec_remaining(maps, keys, order, budget, j)
    &&& maps[order[j] as int].length / 1024 <= spec_remaining(maps, keys, order, budget, j)
}

/// The regions chosen by the walk over the first `n` ranked regions, in the
/// order of the ranking.
pub open spec fn spec_selected(
    maps: Seq<Region>,
    keys: Seq<i64>,
    order: Seq<usize>,
    budget: int,
    n: int,
) -> Seq<Region>
    decreases n,
{
    if n <= 0 {
        Seq::empty()
    } else if chosen(maps, keys, order, budget, n - 1) {
        spec_selected(maps, keys, order, budget, n - 1).push(maps[order[n - 1] as int])
    } else {
        spec_selected(maps, keys, order, budget, n - 1)
    }
}

/// The outcome of a prediction.
#[derive(Debug)]
pub struct Selection {
    /// The positions of all regions, ranked by key.
    pub order: Vec<usize>,
    /// The regions chosen for read-ahead, in the order of the ranking.
    pub maps: Vec<Region>,
    /// The memory that could be used, in kibibytes.
    pub budget: i64,
    /// The memory that was left over, in kibibytes.
    pub remaining: i64,
}

/// Walks over the ranked regions and chooses those to read ahead: a region is
/// chosen where its key is negative, something is left of the budget, and
/// its size in whole kibibytes is within what is left, which then shrinks by
/// that size.
pub fn select(maps: &Vec<Region>, keys: &Vec<i64>, order: &Vec<usize>, budget: i64) -> (r: (
    Vec<Region>,
    i64,
))
    requires
        keys@.len() == maps@.len(),
        is_ranking(keys@, order@),
    ensures
        r.0@ == spec_selected(maps@, keys@, order@, budget as int, order@.len() as int),
        r.1 == spec_remaining(maps@, keys@, order@, budget as int, order@.len() as int),
        budget <= 0 ==> r.0@.len() == 0,
        (forall|i: int| 0 <= i < keys@.len() ==> #[trigger] keys@[i] >= 0) ==> r.0@.len() == 0,
{
    proof {
        if budget <= 0 {
            lemma_spent_budget(maps@, keys@, order@, budget as int, order@.len() as int);
        }
        if forall|i: int| 0 <= i < keys@.len() ==> #[trigger] keys@[i] >= 0 {
            lemma_nothing_likely(maps@, keys@, order@, budget as int, order@.len() as int);
        }
    }
    let mut selected: Vec<Region> = Vec::new();
    let mut left: i64 = budget;
    let mut j: usize = 0;
    while j < order.len()
        invariant
            j <= order@.len(),
            keys@.len() == maps@.len(),
            is_ranking(keys@, order@),
            selected@ == spec_selected(maps@, keys@, order@, budget as int, j as int),
            left == spec_remaining(maps@, keys@, order@, budget as int, j as int),
        decreases order@.len() - j,
    {
        let position = order[j];
        let size = kb(maps[position].length);
        let take = keys[position] < 0 && left > 0 && size <= left as u64;
        proof {
            assert(size == maps@[position as int].length / 1024);
            assert(take == chosen(maps@, keys@, order@, budget as int, j as int));
            assert(spec_remaining(maps@, keys@, order@, budget as int, j + 1) == (if take {
                left - size
            } else {
                left as int
            }));
        }
        if take {
            selected.push(maps[position].clone());
            left = left - size as i64;
        }
        j = j + 1;
    }
    (selected, left)
}

/// Chooses the regions to read ahead.
///
/// `memstat` is a fresh snapshot of the memory statistics, which the model
/// keeps. `keys` holds one key for every region, in the order of the
/// registry: keys order the regions as their log-probabilities do, and a key
/// is negative exactly where the log-probability is. The regions are ranked
/// by key, the budget is computed from the snapshot and the three
/// percentages, and the walk over the ranking chooses the regions.
pub fn readahead(
    state: &mut State,
    memstat: MemInfo,
    keys: &Vec<i64>,
    memtotal: i32,
    memfree: i32,
    memcached: i32,
) -> (r: Selection)
    requires
        old(state).wf(),
        keys@.len() == old(state)@.maps.len(),
    ensures
        final(state)@ == (StateView {
            memstat,
            memstat_timestamp: old(state)@.time,
            ..old(state)@
        }),
        final(state).wf(),
        is_ranking(keys@, r.order@),
        r.budget == spec_budget(memstat, memtotal, memfree, memcached),
        r.maps@ == spec_selected(
            old(state)@.maps,
            keys@,
            r.order@,
            r.budget as int,
            r.order@.len() as int,
        ),
        r.remaining == spec_remaining(
            old(state)@.maps,
            keys@,
            r.order@,
            r.budget as int,
            r.order@.len() as int,
        ),
        memtotal == 0 && memfree == 0 && memcached == 0 ==> r.budget == 0 && r.maps@.len() == 0,
        (forall|i: int| 0 <= i < keys@.len() ==> #[trigger] keys@[i] >= 0) ==> r.maps@.len() == 0,
{
    proof {
        lemma_no_budget(old(state)@.maps, keys@, Seq::empty(), memstat, 0);
    }
    let budget = memory_budget(&memstat, memtotal, memfree, memcached);
    state.memstat = memstat;
    state.memstat_timestamp = state.time;
    proof {
        let post = state@;
        old(state)@.lemma_wf_frame(post);
    }
    let order = rank(keys);
    let (maps, remaining) = select(&state.maps, keys, &order, budget);
    Selection { order, maps, budget, remaining }
}

/// Without a single negative key nothing is chosen.
pub proof fn lemma_nothing_likely(
    maps: Seq<Region>,
    keys: Seq<i64>,
    order: Seq<usize>,
    budget: int,
    n: int,
)
    requires
        keys.len() == maps.len(),
        is_ranking(keys, order),
        0 <= n <= order.len(),
        forall|i: int| 0 <= i < keys.len() ==> #[trigger] keys[i] >= 0,
    ensures
        spec_selected(maps, keys, order, budget, n).len() == 0,
    decreases n,
{
    if n > 0 {
        lemma_nothing_likely(maps, keys, order, budget, n - 1);
        assert(order[n - 1] < keys.len());
    }
}

/// With all three percentages zero the budget is zero, and nothing is
/// chosen, whatever the regions and their keys.
pub proof fn lemma_no_budget(
    maps: Seq<Region>,
    keys: Seq<i64>,
    order: Seq<usize>,
    mem: MemInfo,
    n: int,
)
    requires
        0 <= n,
    ensures
        spec_budget(mem, 0, 0, 0) == 0,
        spec_selected(maps, keys, order, 0, n).len() == 0,
        spec_remaining(maps, keys, order, 0, n) == 0,
    decreases n,
{
    assert(clamp_percent(0) == 0);
    assert(mem.total * 0 == 0 && mem.free * 0 == 0 && mem.cached * 0 == 0);
    if n > 0 {
        lemma_no_budget(maps, keys, order, mem, n - 1);
        assert(!chosen(maps, keys, order, 0, n - 1));
    } else {
        assert(spec_remaining(maps, keys, order, 0, n) == 0);
    }
}

/// The sizes, in whole kibibytes, of the regions with a negative key among
/// the first `n` ranked regions, added up.
pub open spec fn likely_size(maps: Seq<Region>, keys: Seq<i64>, order: Seq<usize>, n: int) -> int
    decreases n,
{
    if n <= 0 {
        0
    } else if keys[order[n - 1] as int] < 0 {
        likely_size(maps, keys, order, n - 1) + maps[order[n - 1] as int].length / 1024
    } else {
        likely_size(maps, keys, order, n - 1)
    }
}

/// What regions with a negative key take up grows with their number.
proof fn lemma_likely_size_grows(maps: Seq<Region>, keys: Seq<i64>, order: Seq<usize>, n: int, m: int)
    requires
        0 <= n <= m,
    ensures
        0 <= likely_size(maps, keys, order, n) <= likely_size(maps, keys, order, m),
    decreases m,
{
    if n < m {
        lemma_likely_size_grows(maps, keys, order, n, m - 1);
    } else if n > 0 {
        lemma_likely_size_grows(maps, keys, order, n - 1, m - 1);
    }
}

/// Where the budget is more than all regions with a negative key take up
/// together, exactly those regions are chosen: every region whose key is
/// negative, and none that is marked as needed for certain or left at zero.
pub proof fn lemma_ample_budget(
    maps: Seq<Region>,
    keys: Seq<i64>,
    order: Seq<usize>,
    budget: int,
    n: int,
)
    requires
        0 <= n <= order.len(),
        budget > likely_size(maps, keys, order, order.len() as int),
    ensures
        spec_remaining(maps, keys, order, budget, n) == budget - likely_size(maps, keys, order, n),
        forall|j: int|
            0 <= j < n ==> (#[trigger] chosen(maps, keys, order, budget, j) <==> keys[order[j] as int]
                < 0),
    decreases n,
{
    if n > 0 {
        lemma_ample_budget(maps, keys, order, budget, n - 1);
        lemma_likely_size_grows(maps, keys, order, n, order.len() as int);
        lemma_likely_size_grows(maps, keys, order, n - 1, n);
        assert(chosen(maps, keys, order, budget, n - 1) <==> keys[order[n - 1] as int] < 0);
        assert forall|j: int| 0 <= j < n implies (#[trigger] chosen(maps, keys, order, budget, j)
            <==> keys[order[j] as int] < 0) by {
            if j < n - 1 {
            }
        }
    } else {
        assert(spec_remaining(maps, keys, order, budget, n) == budget);
    }
}

/// Without anything left of the budget nothing more is chosen: a budget
/// that is not positive chooses nothing.
pub proof fn lemma_spent_budget(
    maps: Seq<Region>,
    keys: Seq<i64>,
    order: Seq<usize>,
    budget: int,
    n: int,
)
    requires
        budget <= 0,
        0 <= n,
    ensures
        spec_selected(maps, keys, order, budget, n).len() == 0,
        spec_remaining(maps, keys, order, budget, n) == budget,
    decreases n,
{
    if n > 0 {
        lemma_spent_budget(maps, keys, order, budget, n - 1);
        assert(!chosen(maps, keys, order, budget, n - 1));
    } else {
        assert(spec_remaining(maps, keys, order, budget, n) == budget);
    }
}

} // verus!
