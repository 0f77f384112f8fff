//! Saving and loading agree: a model that is built from what was saved of a
//! model saves the same again.

use crate::common::Failure;
use crate::markov::Chain;
use crate::persist::{spec_lookup, spec_read_state, Loading, SeqIndex};
use crate::state::{links, same_pair, Exe, ExeMap, StateView};
use vstd::prelude::*;

verus! {

/// The table that notes for each of the numbers 1 to `n` the position one
/// below it.
pub open spec fn counting_table(n: int) -> Seq<SeqIndex> {
    Seq::new(n as nat, |i: int| SeqIndex { seq: (i + 1) as i32, index: i as usize })
}

/// The counting table notes for a number from 1 to `m` the position one
/// below it, and nothing for any other number.
proof fn lemma_counting_lookup(n: int, seq: i32, m: int)
    requires
        0 <= m <= n <= i32::MAX,
    ensures
        spec_lookup(counting_table(n), seq, m) == (if 1 <= seq <= m {
            Some((seq - 1) as usize)
        } else {
            None
        }),
    decreases m,
{
    if m > 0 {
        lemma_counting_lookup(n, seq, m - 1);
    }
}

impl StateView {
    /// The regions and the executables are numbered by position: no
    /// sequence number has been given up.
    pub open spec fn compact(self) -> bool {
        &&& forall|i: int| 0 <= i < self.maps.len() ==> (#[trigger] self.maps[i]).seq == i + 1
        &&& forall|i: int| 0 <= i < self.exes.len() ==> (#[trigger] self.exes[i]).seq == i + 1
    }

    /// The model from which the building of a model from this model's
    /// snapshot starts.
    pub open spec fn load_start(self) -> Loading {
        Loading { state: StateView::blank(self.time), maps: Seq::empty(), exes: Seq::empty() }
    }

    /// The building after the first `n` regions of this model's snapshot
    /// were taken in.
    pub open spec fn load_after_maps(self, n: int) -> Loading {
        Loading {
            state: StateView {
                maps: self.maps.subrange(0, n),
                map_seq: n as i32,
                ..StateView::blank(self.time)
            },
            maps: counting_table(n),
            exes: Seq::empty(),
        }
    }

    /// The building after all regions and the first `n` executables that are
    /// too small were taken in.
    pub open spec fn load_after_bad_exes(self, n: int) -> Loading {
        let mapped = self.load_after_maps(self.maps.len() as int);
        Loading {
            state: StateView { bad_exes: self.bad_exes.subrange(0, n), ..mapped.state },
            ..mapped
        }
    }

    /// The building after all of these and the first `n` executables were
    /// taken in.
    pub open spec fn load_after_exes(self, n: int) -> Loading {
        let noted = self.load_after_bad_exes(self.bad_exes.len() as int);
        Loading {
            state: StateView { exes: self.exes.subrange(0, n), exe_seq: n as i32, ..noted.state },
            exes: counting_table(n),
            ..noted
        }
    }

    /// Whether `l` is the building after all of these and the first `n` uses
    /// of regions were taken in, but for the sizes of the executables.
    pub open spec fn load_after_exemaps(self, l: Loading, n: int) -> bool {
        let peopled = self.load_after_exes(self.exes.len() as int);
        &&& l == (Loading {
            state: StateView {
                exemaps: self.exemaps.subrange(0, n),
                exes: l.state.exes,
                ..peopled.state
            },
            ..peopled
        })
        &&& l.state.exes.len() == self.exes.len()
        &&& forall|i: int|
            0 <= i < self.exes.len() ==> #[trigger] l.state.exes[i] == (Exe {
                size: l.state.exes[i].size,
                ..self.exes[i]
            })
    }

    /// Chain `k` as it comes back from the store: in state 0, entered at
    /// time 0, with the period `cycle`.
    pub open spec fn stored_chain(self, k: int, cycle: u32) -> Chain {
        Chain { state: 0, change_timestamp: 0, cycle, ..self.chains[k] }
    }

    /// Whether `l` is the building after the uses of regions, which gave
    /// `used`, and the first `n` chains were taken in.
    pub open spec fn load_after_markovs(self, used: Loading, l: Loading, cycle: u32, n: int) -> bool {
        &&& l == (Loading { state: StateView { chains: l.state.chains, ..used.state }, ..used })
        &&& l.state.chains.len() == n
        &&& forall|k: int| 0 <= k < n ==> #[trigger] l.state.chains[k] == self.stored_chain(k, cycle)
    }
}

/// Taking in the regions of a snapshot of a compact model gives the regions
/// back as they are.
proof fn lemma_maps_come_back(g: StateView, n: int)
    requires
        g.wf(),
        g.compact(),
        0 <= n <= g.maps.len(),
    ensures
        g.load_start().load_maps(g.maps, n) == Ok::<Loading, Failure>(g.load_after_maps(n)),
    decreases n,
{
    if n == 0 {
        assert(g.maps.subrange(0, 0) =~= Seq::<crate::state::Region>::empty());
        assert(counting_table(0) =~= Seq::<SeqIndex>::empty());
        assert(g.load_after_maps(0).state == StateView::blank(g.time));
    } else {
        lemma_maps_come_back(g, n - 1);
        let l = g.load_after_maps(n - 1);
        let region = g.maps[n - 1];
        assert(region.seq == n);
        assert(n <= i32::MAX);
        lemma_counting_lookup(n - 1, region.seq, n - 1);
        assert(!l.state.has_map(region)) by {
            if l.state.has_map(region) {
                let i = choose|i: int|
                    0 <= i < l.state.maps.len() && (#[trigger] l.state.maps[i]).same_key(&region);
                assert(l.state.maps[i] == g.maps[i]);
                assert(!g.maps[i].same_key(&g.maps[n - 1]));
            }
        }
        let next = l.load_map(region);
        assert(next is Ok);
        assert(next->Ok_0.state.maps =~= g.maps.subrange(0, n)) by {
            assert(crate::state::Region { seq: n as i32, ..region } == region);
        }
        assert(next->Ok_0.maps =~= counting_table(n));
        assert(next->Ok_0 == g.load_after_maps(n));
    }
}

/// Taking in the executables that are too small gives them back as they
/// are.
proof fn lemma_bad_exes_come_back(g: StateView, n: int)
    requires
        g.wf(),
        0 <= n <= g.bad_exes.len(),
    ensures
        g.load_after_maps(g.maps.len() as int).load_bad_exes(g.bad_exes, n)
            == g.load_after_bad_exes(n),
    decreases n,
{
    let mapped = g.load_after_maps(g.maps.len() as int);
    if n == 0 {
        assert(g.bad_exes.subrange(0, 0) =~= Seq::<crate::state::BadExe>::empty());
        assert(g.load_after_bad_exes(0).state == mapped.state);
    } else {
        lemma_bad_exes_come_back(g, n - 1);
        let l = g.load_after_bad_exes(n - 1);
        let entry = g.bad_exes[n - 1];
        assert(!l.state.is_bad(entry.path@)) by {
            if l.state.is_bad(entry.path@) {
                let k = choose|k: int|
                    0 <= k < l.state.bad_exes.len() && (#[trigger] l.state.bad_exes[k]).path@
                        == entry.path@;
                assert(l.state.bad_exes[k] == g.bad_exes[k]);
                assert(g.bad_exes[k].path@ != g.bad_exes[n - 1].path@);
            }
        }
        let next = l.state.spec_note_bad_exe(entry);
        assert(next.bad_exes =~= g.bad_exes.subrange(0, n));
        assert(next == g.load_after_bad_exes(n).state);
    }
}

/// Taking in the executables gives them back as they are.
proof fn lemma_exes_come_back(g: StateView, cycle: u32, n: int)
    requires
        g.wf(),
        g.compact(),
        0 <= n <= g.exes.len(),
    ensures
        g.load_after_bad_exes(g.bad_exes.len() as int).load_exes(g.exes, cycle, n) == Ok::<
            Loading,
            Failure,
        >(g.load_after_exes(n)),
    decreases n,
{
    let noted = g.load_after_bad_exes(g.bad_exes.len() as int);
    if n == 0 {
        assert(g.exes.subrange(0, 0) =~= Seq::<Exe>::empty());
        assert(counting_table(0) =~= Seq::<SeqIndex>::empty());
        assert(g.load_after_exes(0).state == noted.state);
        assert(g.load_after_exes(0) == noted);
    } else {
        lemma_exes_come_back(g, cycle, n - 1);
        let l = g.load_after_exes(n - 1);
        let exe = g.exes[n - 1];
        assert(exe.seq == n);
        assert(n <= i32::MAX);
        lemma_counting_lookup(n - 1, exe.seq, n - 1);
        assert(!l.state.has_exe(exe.path@)) by {
            if l.state.has_exe(exe.path@) {
                let i = choose|i: int|
                    0 <= i < l.state.exes.len() && (#[trigger] l.state.exes[i]).path@ == exe.path@;
                assert(l.state.exes[i] == g.exes[i]);
                assert(g.exes[i].path@ != g.exes[n - 1].path@);
            }
        }
        let next = l.load_exe(exe, cycle);
        assert(next is Ok);
        assert(next->Ok_0.state.exes =~= g.exes.subrange(0, n)) by {
            assert(Exe { seq: n as i32, ..exe } == exe);
        }
        assert(next->Ok_0.exes =~= counting_table(n));
        assert(next->Ok_0.state == g.load_after_exes(n).state);
        assert(next->Ok_0 == g.load_after_exes(n));
    }
}

/// Taking in the uses of regions gives them back as they are, and changes
/// nothing of the executables but their sizes.
proof fn lemma_exemaps_come_back(g: StateView, n: int)
    requires
        g.wf(),
        g.compact(),
        0 <= n <= g.exemaps.len(),
    ensures
        g.load_after_exemaps(
            g.load_after_exes(g.exes.len() as int).load_exemaps(g.snapshot().exemaps, n),
            n,
        ),
    decreases n,
{
    let peopled = g.load_after_exes(g.exes.len() as int);
    assert(g.exes.subrange(0, g.exes.len() as int) =~= g.exes);
    assert(g.maps.subrange(0, g.maps.len() as int) =~= g.maps);
    if n == 0 {
        assert(g.exemaps.subrange(0, 0) =~= Seq::<ExeMap>::empty());
        assert(peopled.state.exemaps =~= Seq::<ExeMap>::empty());
        assert(peopled.state == (StateView {
            exemaps: g.exemaps.subrange(0, 0),
            exes: peopled.state.exes,
            ..peopled.state
        }));
    } else {
        lemma_exemaps_come_back(g, n - 1);
        let l = peopled.load_exemaps(g.snapshot().exemaps, n - 1);
        let use_ = g.exemaps[n - 1];
        let row = g.snapshot().exemaps[n - 1];
        assert(row == g.exemap_row(n - 1));
        assert(use_.exe < g.exes.len() && use_.map < g.maps.len());
        assert(g.exes[use_.exe as int].seq == use_.exe + 1);
        assert(g.maps[use_.map as int].seq == use_.map + 1);
        assert(g.exes.len() <= i32::MAX) by {
            assert(g.exes[g.exes.len() - 1].seq == g.exes.len());
        }
        assert(g.maps.len() <= i32::MAX) by {
            assert(g.maps[g.maps.len() - 1].seq == g.maps.len());
        }
        lemma_counting_lookup(g.exes.len() as int, row.seq, g.exes.len() as int);
        lemma_counting_lookup(g.maps.len() as int, row.map_seq, g.maps.len() as int);
        assert(spec_lookup(l.exes, row.seq, l.exes.len() as int) == Some(use_.exe));
        assert(spec_lookup(l.maps, row.map_seq, l.maps.len() as int) == Some(use_.map));
        assert(!l.state.has_exemap(use_.exe as int, use_.map as int)) by {
            if l.state.has_exemap(use_.exe as int, use_.map as int) {
                let k = choose|k: int|
                    0 <= k < l.state.exemaps.len() && (#[trigger] l.state.exemaps[k]).exe
                        == use_.exe && l.state.exemaps[k].map == use_.map;
                assert(l.state.exemaps[k] == g.exemaps[k]);
                assert(!(g.exemaps[k].exe == g.exemaps[n - 1].exe && g.exemaps[k].map
                    == g.exemaps[n - 1].map));
            }
        }
        let next = l.load_exemap(row);
        assert(next.state == l.state.spec_add_exemap(use_.exe, use_.map, row.prob));
        assert(next.state.exemaps =~= g.exemaps.subrange(0, n));
        assert forall|i: int| 0 <= i < g.exes.len() implies #[trigger] next.state.exes[i] == (Exe {
            size: next.state.exes[i].size,
            ..g.exes[i]
        }) by {
            assert(l.state.exes[i] == Exe { size: l.state.exes[i].size, ..g.exes[i] });
        }
        assert(next.state == (StateView {
            exemaps: g.exemaps.subrange(0, n),
            exes: next.state.exes,
            ..peopled.state
        }));
    }
}

/// Taking in the chains gives each back as it was, in state 0 and entered
/// at time 0.
proof fn lemma_markovs_come_back(g: StateView, cycle: u32, n: int)
    requires
        g.wf(),
        g.compact(),
        0 <= n <= g.chains.len(),
    ensures
        g.load_after_exes(g.exes.len() as int).load_exemaps(
            g.snapshot().exemaps,
            g.exemaps.len() as int,
        ).load_markovs(g.snapshot().markovs, cycle, n) is Ok,
        g.load_after_markovs(
            g.load_after_exes(g.exes.len() as int).load_exemaps(
                g.snapshot().exemaps,
                g.exemaps.len() as int,
            ),
            g.load_after_exes(g.exes.len() as int).load_exemaps(
                g.snapshot().exemaps,
                g.exemaps.len() as int,
            ).load_markovs(g.snapshot().markovs, cycle, n)->Ok_0,
            cycle,
            n,
        ),
    decreases n,
{
    let used = g.load_after_exes(g.exes.len() as int).load_exemaps(
        g.snapshot().exemaps,
        g.exemaps.len() as int,
    );
    lemma_exemaps_come_back(g, g.exemaps.len() as int);
    assert(g.exes.subrange(0, g.exes.len() as int) =~= g.exes);
    assert(used.state.chains =~= Seq::<Chain>::empty());
    assert(used.exes == counting_table(g.exes.len() as int));
    if n == 0 {
        assert(used.state == (StateView { chains: used.state.chains, ..used.state }));
    } else {
        lemma_markovs_come_back(g, cycle, n - 1);
        let l = used.load_markovs(g.snapshot().markovs, cycle, n - 1)->Ok_0;
        let chain = g.chains[n - 1];
        let row = g.snapshot().markovs[n - 1];
        assert(row == g.markov_record(n - 1));
        assert(chain.wf() && chain.a < g.exes.len() && chain.b < g.exes.len() && chain.a
            != chain.b);
        assert(g.exes[chain.a as int].seq == chain.a + 1);
        assert(g.exes[chain.b as int].seq == chain.b + 1);
        assert(g.exes.len() <= i32::MAX) by {
            assert(g.exes[g.exes.len() - 1].seq == g.exes.len());
        }
        lemma_counting_lookup(g.exes.len() as int, row.a_seq, g.exes.len() as int);
        lemma_counting_lookup(g.exes.len() as int, row.b_seq, g.exes.len() as int);
        assert(l.exes == counting_table(g.exes.len() as int));
        assert(spec_lookup(l.exes, row.a_seq, l.exes.len() as int) == Some(chain.a));
        assert(spec_lookup(l.exes, row.b_seq, l.exes.len() as int) == Some(chain.b));
        assert(!l.state.linked(chain.a as int, chain.b as int)) by {
            if l.state.linked(chain.a as int, chain.b as int) {
                let k = choose|k: int|
                    0 <= k < l.state.chains.len() && #[trigger] links(
                        l.state.chains[k],
                        chain.a as int,
                        chain.b as int,
                    );
                assert(l.state.chains[k] == g.stored_chain(k, cycle));
                assert(!same_pair(g.chains[k], g.chains[n - 1]));
            }
        }
        assert(l.joins(row));
        let next = l.load_markov(row, cycle);
        assert(next is Ok);
        assert(l.chain_of(row, chain.weight, cycle) == g.stored_chain(n - 1, cycle));
        let after = next->Ok_0;
        assert forall|k: int| 0 <= k < n implies #[trigger] after.state.chains[k] == g.stored_chain(
            k,
            cycle,
        ) by {
            if k < n - 1 {
                assert(after.state.chains[k] == l.state.chains[k]);
            }
        }
        assert(after == (Loading {
            state: StateView { chains: after.state.chains, ..used.state },
            ..used
        }));
    }
}

/// A model that is built from the snapshot of a model holds what the store
/// holds of that model: the time, the regions, the executables that are too
/// small, the uses of regions and the chains have the same snapshot, and the
/// executables differ from the saved ones in nothing but their sizes, which
/// the store does not hold. So the model that was built saves as the saved
/// one did.
///
/// This holds of a model whose regions and executables are numbered by
/// position, as they are as long as none has been removed.
pub proof fn lemma_save_load_save(g: StateView, cycle: u32)
    requires
        g.wf(),
        g.compact(),
    ensures
        spec_read_state(g.snapshot(), cycle) is Ok,
        spec_read_state(g.snapshot(), cycle)->Ok_0.snapshot().time == g.snapshot().time,
        spec_read_state(g.snapshot(), cycle)->Ok_0.snapshot().maps == g.snapshot().maps,
        spec_read_state(g.snapshot(), cycle)->Ok_0.snapshot().bad_exes == g.snapshot().bad_exes,
        spec_read_state(g.snapshot(), cycle)->Ok_0.snapshot().exemaps == g.snapshot().exemaps,
        spec_read_state(g.snapshot(), cycle)->Ok_0.snapshot().markovs == g.snapshot().markovs,
        spec_read_state(g.snapshot(), cycle)->Ok_0.snapshot().exes.len()
            == g.snapshot().exes.len(),
        forall|i: int|
            0 <= i < g.exes.len() ==> #[trigger] spec_read_state(
                g.snapshot(),
                cycle,
            )->Ok_0.snapshot().exes[i] == (Exe {
                size: spec_read_state(g.snapshot(), cycle)->Ok_0.snapshot().exes[i].size,
                ..g.snapshot().exes[i]
            }),
{
    let s = g.snapshot();
    lemma_maps_come_back(g, g.maps.len() as int);
    lemma_bad_exes_come_back(g, g.bad_exes.len() as int);
    lemma_exes_come_back(g, cycle, g.exes.len() as int);
    lemma_exemaps_come_back(g, g.exemaps.len() as int);
    lemma_markovs_come_back(g, cycle, g.chains.len() as int);
    let used = g.load_after_exes(g.exes.len() as int).load_exemaps(s.exemaps, g.exemaps.len() as int);
    let done = used.load_markovs(s.markovs, cycle, g.chains.len() as int)->Ok_0;
    assert(spec_read_state(s, cycle) == Ok::<StateView, Failure>(done.state));
    let back = done.state;
    assert(g.maps.subrange(0, g.maps.len() as int) =~= g.maps);
    assert(g.bad_exes.subrange(0, g.bad_exes.len() as int) =~= g.bad_exes);
    assert(g.exemaps.subrange(0, g.exemaps.len() as int) =~= g.exemaps);
    assert(back.maps == g.maps);
    assert(back.bad_exes == g.bad_exes);
    assert(back.exemaps == g.exemaps);
    assert(back.snapshot().exemaps =~= s.exemaps) by {
        assert forall|k: int| 0 <= k < g.exemaps.len() implies back.exemap_row(k) == g.exemap_row(
            k,
        ) by {
            assert(g.exemaps[k].exe < g.exes.len());
            assert(back.exes[g.exemaps[k].exe as int] == Exe {
                size: back.exes[g.exemaps[k].exe as int].size,
                ..g.exes[g.exemaps[k].exe as int]
            });
        }
    }
    assert(back.snapshot().markovs =~= s.markovs) by {
        assert forall|k: int| 0 <= k < g.chains.len() implies back.markov_record(k)
            == g.markov_record(k) by {
            assert(back.chains[k] == g.stored_chain(k, cycle));
            assert(g.chains[k].a < g.exes.len() && g.chains[k].b < g.exes.len());
            assert(back.exes[g.chains[k].a as int] == Exe {
                size: back.exes[g.chains[k].a as int].size,
                ..g.exes[g.chains[k].a as int]
            });
            assert(back.exes[g.chains[k].b as int] == Exe {
                size: back.exes[g.chains[k].b as int].size,
                ..g.exes[g.chains[k].b as int]
            });
        }
    }
}

} // verus!
