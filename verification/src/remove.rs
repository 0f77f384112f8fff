//! Forgetting an executable: it leaves the model together with every chain
//! that joins it to another executable and with every use of a region by it.

use crate::markov::Chain;
use crate::state::{links, same_pair, Exe, ExeMap, State, StateView};
use vstd::prelude::*;

verus! {

/// Where position `i` has gone after the entry at position `x` left.
pub open spec fn moved_down(i: usize, x: usize) -> usize {
    if i > x {
        (i - 1) as usize
    } else {
        i
    }
}

/// The positions in `list` but for `x`, each where it has gone after the
/// entry at `x` left; of the first `n` entries.
pub open spec fn list_without(list: Seq<usize>, x: usize, n: int) -> Seq<usize>
    decreases n,
{
    if n <= 0 {
        Seq::empty()
    } else if list[n - 1] == x {
        list_without(list, x, n - 1)
    } else {
        list_without(list, x, n - 1).push(moved_down(list[n - 1], x))
    }
}

impl StateView {
    /// Chain `k` after executable `x`, which it does not join, left.
    pub open spec fn moved_chain(self, k: int, x: usize) -> Chain {
        Chain {
            a: moved_down(self.chains[k].a, x),
            b: moved_down(self.chains[k].b, x),
            ..self.chains[k]
        }
    }

    /// Use `k` of a region after executable `x`, whose use it is not, left.
    pub open spec fn moved_exemap(self, k: int, x: usize) -> ExeMap {
        ExeMap { exe: moved_down(self.exemaps[k].exe, x), ..self.exemaps[k] }
    }

    /// Those of the first `n` chains that do not join executable `x`, after
    /// `x` left.
    pub open spec fn chains_without(self, x: usize, n: int) -> Seq<Chain>
        decreases n,
    {
        if n <= 0 {
            Seq::empty()
        } else if self.chains[n - 1].a == x || self.chains[n - 1].b == x {
            self.chains_without(x, n - 1)
        } else {
            self.chains_without(x, n - 1).push(self.moved_chain(n - 1, x))
        }
    }

    /// Those of the first `n` uses of regions that are not uses by
    /// executable `x`, after `x` left.
    pub open spec fn exemaps_without(self, x: usize, n: int) -> Seq<ExeMap>
        decreases n,
    {
        if n <= 0 {
            Seq::empty()
        } else if self.exemaps[n - 1].exe == x {
            self.exemaps_without(x, n - 1)
        } else {
            self.exemaps_without(x, n - 1).push(self.moved_exemap(n - 1, x))
        }
    }

    /// The model after executable `x` left: with it go the chains that join
    /// it to other executables and its uses of regions, and it leaves the
    /// lists of running and changed executables. The regions stay.
    pub open spec fn spec_remove_exe(self, x: usize) -> StateView {
        StateView {
            exes: self.exes.remove(x as int),
            chains: self.chains_without(x, self.chains.len() as int),
            exemaps: self.exemaps_without(x, self.exemaps.len() as int),
            running_exes: list_without(self.running_exes, x, self.running_exes.len() as int),
            state_changed_exes: list_without(
                self.state_changed_exes,
                x,
                self.state_changed_exes.len() as int,
            ),
            new_running_exes: list_without(
                self.new_running_exes,
                x,
                self.new_running_exes.len() as int,
            ),
            ..self
        }
    }

    /// What holds of the chains that stay when executable `x` leaves: each
    /// is well formed and joins two different executables that stay; each
    /// comes from a chain that did not join `x`, and every such chain stays;
    /// and no pair has two.
    proof fn lemma_chains_without(self, x: usize, n: int)
        requires
            self.wf(),
            x < self.exes.len(),
            0 <= n <= self.chains.len(),
        ensures
            forall|j: int|
                0 <= j < self.chains_without(x, n).len() ==> {
                    &&& (#[trigger] self.chains_without(x, n)[j]).wf()
                    &&& self.chains_without(x, n)[j].a < self.exes.len() - 1
                    &&& self.chains_without(x, n)[j].b < self.exes.len() - 1
                    &&& self.chains_without(x, n)[j].a != self.chains_without(x, n)[j].b
                    &&& self.stays(x, n, self.chains_without(x, n)[j])
                },
            forall|i: int, j: int|
                0 <= i < j < self.chains_without(x, n).len() ==> !same_pair(
                    #[trigger] self.chains_without(x, n)[i],
                    #[trigger] self.chains_without(x, n)[j],
                ),
            forall|k: int|
                0 <= k < n && (#[trigger] self.chains[k]).a != x && self.chains[k].b != x
                    ==> self.chains_without(x, n).contains(self.moved_chain(k, x)),
        decreases n,
    {
        if n > 0 {
            self.lemma_chains_without(x, n - 1);
            let before = self.chains_without(x, n - 1);
            let after = self.chains_without(x, n);
            let c = self.chains[n - 1];
            assert(c.wf() && c.a < self.exes.len() && c.b < self.exes.len() && c.a != c.b);
            if c.a == x || c.b == x {
                assert forall|j: int| 0 <= j < after.len() implies self.stays(
                    x,
                    n,
                    #[trigger] after[j],
                ) by {
                    assert(self.stays(x, n - 1, before[j]));
                    let k = self.source(x, n - 1, before[j]);
                    assert(self.is_source(x, n, after[j], k));
                }
            } else {
                let moved = self.moved_chain(n - 1, x);
                assert(self.is_source(x, n, moved, n - 1));
                assert forall|j: int| 0 <= j < after.len() implies {
                    &&& (#[trigger] after[j]).wf()
                    &&& after[j].a < self.exes.len() - 1
                    &&& after[j].b < self.exes.len() - 1
                    &&& after[j].a != after[j].b
                    &&& self.stays(x, n, after[j])
                } by {
                    if j < before.len() {
                        assert(after[j] == before[j]);
                        assert(self.stays(x, n - 1, before[j]));
                        let k = self.source(x, n - 1, before[j]);
                        assert(self.is_source(x, n, after[j], k));
                    }
                }
                assert forall|i: int, j: int| 0 <= i < j < after.len() implies !same_pair(
                    #[trigger] after[i],
                    #[trigger] after[j],
                ) by {
                    assert(after[i] == before[i]);
                    if j < before.len() {
                        assert(after[j] == before[j]);
                    } else {
                        assert(self.stays(x, n - 1, before[i]));
                        let k = self.source(x, n - 1, before[i]);
                        assert(self.chains[k].a < self.exes.len() && self.chains[k].b
                            < self.exes.len());
                        assert(!same_pair(self.chains[k], self.chains[n - 1]));
                    }
                }
                assert forall|k: int|
                    0 <= k < n && (#[trigger] self.chains[k]).a != x && self.chains[k].b
                        != x implies after.contains(self.moved_chain(k, x)) by {
                    if k < n - 1 {
                        assert(before.contains(self.moved_chain(k, x)));
                        let j = choose|j: int|
                            0 <= j < before.len() && before[j] == self.moved_chain(k, x);
                        assert(after[j] == self.moved_chain(k, x));
                    } else {
                        assert(after[after.len() - 1] == moved);
                    }
                }
            }
        }
    }

    /// Whether chain `k`, one of the first `n`, does not join executable `x`
    /// and is `c` after `x` left.
    pub open spec fn is_source(self, x: usize, n: int, c: Chain, k: int) -> bool {
        0 <= k < n && self.chains[k].a != x && self.chains[k].b != x && self.moved_chain(k, x) == c
    }

    /// Whether `c` comes from one of the first `n` chains that does not join
    /// executable `x`.
    pub open spec fn stays(self, x: usize, n: int, c: Chain) -> bool {
        exists|k: int| #[trigger] self.is_source(x, n, c, k)
    }

    /// A chain that `c` comes from.
    pub open spec fn source(self, x: usize, n: int, c: Chain) -> int {
        choose|k: int| #[trigger] self.is_source(x, n, c, k)
    }

    /// Whether use `k`, one of the first `n`, is not a use by executable `x`
    /// and is `u` after `x` left.
    pub open spec fn is_use_source(self, x: usize, n: int, u: ExeMap, k: int) -> bool {
        0 <= k < n && self.exemaps[k].exe != x && self.moved_exemap(k, x) == u
    }

    /// Whether `u` comes from one of the first `n` uses of regions that is
    /// not a use by executable `x`.
    pub open spec fn use_stays(self, x: usize, n: int, u: ExeMap) -> bool {
        exists|k: int| #[trigger] self.is_use_source(x, n, u, k)
    }

    /// A use of a region that `u` comes from.
    pub open spec fn use_source(self, x: usize, n: int, u: ExeMap) -> int {
        choose|k: int| #[trigger] self.is_use_source(x, n, u, k)
    }

    /// What holds of the uses of regions that stay when executable `x`
    /// leaves: each names an executable that stays and a registered region,
    /// and none occurs twice.
    proof fn lemma_exemaps_without(self, x: usize, n: int)
        requires
            self.wf(),
            x < self.exes.len(),
            0 <= n <= self.exemaps.len(),
        ensures
            forall|j: int|
                0 <= j < self.exemaps_without(x, n).len() ==> {
                    &&& (#[trigger] self.exemaps_without(x, n)[j]).exe < self.exes.len() - 1
                    &&& self.exemaps_without(x, n)[j].map < self.maps.len()
                    &&& self.use_stays(x, n, self.exemaps_without(x, n)[j])
                },
            forall|i: int, j: int|
                0 <= i < j < self.exemaps_without(x, n).len() ==> !((
                #[trigger] self.exemaps_without(x, n)[i]).exe == (#[trigger] self.exemaps_without(
                    x,
                    n,
                )[j]).exe && self.exemaps_without(x, n)[i].map == self.exemaps_without(
                    x,
                    n,
                )[j].map),
        decreases n,
    {
        if n > 0 {
            self.lemma_exemaps_without(x, n - 1);
            let before = self.exemaps_without(x, n - 1);
            let after = self.exemaps_without(x, n);
            let u = self.exemaps[n - 1];
            assert(u.exe < self.exes.len() && u.map < self.maps.len());
            if u.exe == x {
                assert forall|j: int| 0 <= j < after.len() implies self.use_stays(
                    x,
                    n,
                    #[trigger] after[j],
                ) by {
                    assert(self.use_stays(x, n - 1, before[j]));
                    let k = self.use_source(x, n - 1, before[j]);
                    assert(self.is_use_source(x, n, after[j], k));
                }
            } else {
                let moved = self.moved_exemap(n - 1, x);
                assert(self.is_use_source(x, n, moved, n - 1));
                assert forall|j: int| 0 <= j < after.len() implies {
                    &&& (#[trigger] after[j]).exe < self.exes.len() - 1
                    &&& after[j].map < self.maps.len()
                    &&& self.use_stays(x, n, after[j])
                } by {
                    if j < before.len() {
                        assert(after[j] == before[j]);
                        assert(self.use_stays(x, n - 1, before[j]));
                        let k = self.use_source(x, n - 1, before[j]);
                        assert(self.is_use_source(x, n, after[j], k));
                    }
                }
                assert forall|i: int, j: int| 0 <= i < j < after.len() implies !((
                #[trigger] after[i]).exe == (#[trigger] after[j]).exe && after[i].map
                    == after[j].map) by {
                    assert(after[i] == before[i]);
                    if j < before.len() {
                        assert(after[j] == before[j]);
                    } else {
                        assert(self.use_stays(x, n - 1, before[i]));
                        let k = self.use_source(x, n - 1, before[i]);
                        assert(self.exemaps[k].exe < self.exes.len());
                        assert(!(self.exemaps[k].exe == self.exemaps[n - 1].exe
                            && self.exemaps[k].map == self.exemaps[n - 1].map));
                    }
                }
            }
        }
    }

    /// Forgetting an executable keeps the invariant, and every pair of the
    /// executables that stay keeps its chain.
    pub proof fn lemma_remove_exe(self, x: usize)
        requires
            self.wf(),
            x < self.exes.len(),
        ensures
            self.spec_remove_exe(x).wf(),
            self.pairs_complete() ==> self.spec_remove_exe(x).pairs_complete(),
    {
        let post = self.spec_remove_exe(x);
        self.lemma_chains_without(x, self.chains.len() as int);
        self.lemma_exemaps_without(x, self.exemaps.len() as int);
        lemma_list_without(self.running_exes, x, self.running_exes.len() as int, self.exes.len() as int);
        lemma_list_without(
            self.state_changed_exes,
            x,
            self.state_changed_exes.len() as int,
            self.exes.len() as int,
        );
        lemma_list_without(
            self.new_running_exes,
            x,
            self.new_running_exes.len() as int,
            self.exes.len() as int,
        );
        assert forall|i: int| 0 <= i < post.exes.len() implies #[trigger] post.exes[i]
            == self.exes[if i < x {
            i
        } else {
            i + 1
        }] by {}
        assert forall|i: int| 0 <= i < post.exes.len() implies 1 <= (#[trigger] post.exes[i]).seq
            <= post.exe_seq by {
            let i0 = if i < x { i } else { i + 1 };
            assert(1 <= self.exes[i0].seq <= self.exe_seq);
        }
        assert forall|i: int, j: int| 0 <= i < j < post.exes.len() implies (
        #[trigger] post.exes[i]).seq < (#[trigger] post.exes[j]).seq by {
            let i0 = if i < x { i } else { i + 1 };
            let j0 = if j < x { j } else { j + 1 };
            assert(self.exes[i0].seq < self.exes[j0].seq);
        }
        assert forall|i: int, j: int| 0 <= i < j < post.exes.len() implies (
        #[trigger] post.exes[i]).path@ != (#[trigger] post.exes[j]).path@ by {
            let i0 = if i < x { i } else { i + 1 };
            let j0 = if j < x { j } else { j + 1 };
            assert(self.exes[i0].path@ != self.exes[j0].path@);
        }
        self.lemma_wf_frame(post);
        if self.pairs_complete() {
            assert forall|p: int, q: int| 0 <= p < q < post.exes.len() implies #[trigger] post.linked(
                p,
                q,
            ) by {
                let p0 = if p < x { p } else { p + 1 };
                let q0 = if q < x { q } else { q + 1 };
                assert(self.linked(p0, q0));
                let k = choose|k: int|
                    0 <= k < self.chains.len() && #[trigger] links(self.chains[k], p0, q0);
                assert(self.chains[k].a != x && self.chains[k].b != x);
                assert(post.chains.contains(self.moved_chain(k, x)));
                let j = choose|j: int|
                    0 <= j < post.chains.len() && post.chains[j] == self.moved_chain(k, x);
                assert(links(post.chains[j], p, q));
            }
        }
    }
}

/// What stays of a list of known executables when executable `x` leaves
/// names executables that stay.
proof fn lemma_list_without(list: Seq<usize>, x: usize, n: int, count: int)
    requires
        0 <= n <= list.len(),
        x < count,
        forall|k: int| 0 <= k < list.len() ==> #[trigger] list[k] < count,
    ensures
        forall|j: int|
            0 <= j < list_without(list, x, n).len() ==> #[trigger] list_without(list, x, n)[j]
                < count - 1,
    decreases n,
{
    if n > 0 {
        lemma_list_without(list, x, n - 1, count);
        let before = list_without(list, x, n - 1);
        let after = list_without(list, x, n);
        assert(list[n - 1] < count);
        assert forall|j: int| 0 <= j < after.len() implies #[trigger] after[j] < count - 1 by {
            if j < before.len() {
                assert(after[j] == before[j]);
            }
        }
    }
}

/// The positions in `list` but for `x`, each where it has gone after the
/// entry at `x` left.
fn without(list: &Vec<usize>, x: usize) -> (r: Vec<usize>)
    ensures
        r@ == list_without(list@, x, list@.len() as int),
{
    let mut r: Vec<usize> = Vec::new();
    let mut i: usize = 0;
    while i < list.len()
        invariant
            i <= list@.len(),
            r@ == list_without(list@, x, i as int),
        decreases list@.len() - i,
    {
        let entry = list[i];
        if entry != x {
            r.push(
                if entry > x {
                    entry - 1
                } else {
                    entry
                },
            );
        }
        i = i + 1;
    }
    r
}

impl State {
    /// Forgets the executable at position `exe` and returns it. With it go
    /// the chains that join it to other executables and its uses of
    /// regions; the regions stay registered.
    pub fn remove_exe(&mut self, exe: usize) -> (removed: Exe)
        requires
            old(self).wf(),
            exe < old(self)@.exes.len(),
        ensures
            final(self).wf(),
            final(self)@ == old(self)@.spec_remove_exe(exe),
            removed == old(self)@.exes[exe as int],
            old(self)@.pairs_complete() ==> final(self)@.pairs_complete(),
    {
        proof {
            old(self)@.lemma_remove_exe(exe);
        }
        let mut chains: Vec<Chain> = Vec::new();
        let mut k: usize = 0;
        while k < self.chains.len()
            invariant
                *self == *old(self),
                k <= self@.chains.len(),
                chains@ == self@.chains_without(exe, k as int),
            decreases self@.chains.len() - k,
        {
            let chain = self.chains[k];
            if chain.a != exe && chain.b != exe {
                chains.push(
                    Chain {
                        a: if chain.a > exe {
                            chain.a - 1
                        } else {
                            chain.a
                        },
                        b: if chain.b > exe {
                            chain.b - 1
                        } else {
                            chain.b
                        },
                        ..chain
                    },
                );
            }
            k = k + 1;
        }
        let mut exemaps: Vec<ExeMap> = Vec::new();
        let mut k: usize = 0;
        while k < self.exemaps.len()
            invariant
                *self == *old(self),
                k <= self@.exemaps.len(),
                exemaps@ == self@.exemaps_without(exe, k as int),
            decreases self@.exemaps.len() - k,
        {
            let use_ = self.exemaps[k];
            if use_.exe != exe {
                exemaps.push(
                    ExeMap {
                        exe: if use_.exe > exe {
                            use_.exe - 1
                        } else {
                            use_.exe
                        },
                        ..use_
                    },
                );
            }
            k = k + 1;
        }
        let running = without(&self.running_exes, exe);
        let changed = without(&self.state_changed_exes, exe);
        let found = without(&self.new_running_exes, exe);
        self.chains = chains;
        self.exemaps = exemaps;
        self.running_exes = running;
        self.state_changed_exes = changed;
        self.new_running_exes = found;
        self.exes.remove(exe)
    }
}

} // verus!
