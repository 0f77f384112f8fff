//! Saving and loading the model: what the state store holds of it, and how
//! the model is built again from that.

use crate::common::Failure;
use crate::database::{
    check_version, BadExeRow, ExeMapRow, ExeRow, MapRow, MarkovRecord, MarkovRow, StateRow,
    VersionCheck,
};
use crate::markov::{get_markov_state, weights_balanced, Chain};
use crate::proc::{accept_file, MemInfo, Process};
use crate::state::{links, BadExe, Exe, Region, State, StateView};
use vstd::prelude::*;

verus! {

/// The rows of the state store, table by table.
#[derive(Debug)]
pub struct Rows {
    /// The singleton row of the state, if the store has one.
    pub state: Option<StateRow>,
    pub maps: Vec<MapRow>,
    pub badexes: Vec<BadExeRow>,
    pub exes: Vec<ExeRow>,
    pub exemaps: Vec<ExeMapRow>,
    pub markovs: Vec<MarkovRow>,
}

/// What the state store holds of a model, with paths in place of URIs.
///
/// Regions and executables carry the sequence numbers under which they are
/// stored; the uses of regions and the chains refer to them by those
/// numbers.
#[derive(Debug)]
pub struct Snapshot {
    /// Logical time, if the store has a row for the state.
    pub time: Option<i32>,
    pub maps: Vec<Region>,
    pub bad_exes: Vec<BadExe>,
    pub exes: Vec<Exe>,
    pub exemaps: Vec<ExeMapRow>,
    pub markovs: Vec<MarkovRecord>,
}

/// The position in a registry of the entity that is stored under a sequence
/// number.
#[derive(Clone, Copy, Debug, PartialEq, Eq)]
pub struct SeqIndex {
    pub seq: i32,
    pub index: usize,
}

/// The position noted for `seq` among the first `n` entries of `table`: that
/// of the last entry for it, if there is one.
pub open spec fn spec_lookup(table: Seq<SeqIndex>, seq: i32, n: int) -> Option<usize>
    decreases n,
{
    if n <= 0 {
        None
    } else if table[n - 1].seq == seq {
        Some(table[n - 1].index)
    } else {
        spec_lookup(table, seq, n - 1)
    }
}

/// Every position that the table notes is below `limit`.
pub open spec fn table_within(table: Seq<SeqIndex>, limit: int) -> bool {
    forall|k: int| 0 <= k < table.len() ==> (#[trigger] table[k]).index < limit
}

/// A position that a table notes is one of its entries' positions.
pub proof fn lemma_lookup_within(table: Seq<SeqIndex>, seq: i32, n: int, limit: int)
    requires
        table_within(table, limit),
        0 <= n <= table.len(),
    ensures
        spec_lookup(table, seq, n) is Some ==> spec_lookup(table, seq, n)->Some_0 < limit,
    decreases n,
{
    if n > 0 {
        if table[n - 1].seq != seq {
            lemma_lookup_within(table, seq, n - 1, limit);
        }
    }
}

/// The position noted for `seq` in `table`.
pub fn lookup(table: &Vec<SeqIndex>, seq: i32) -> (r: Option<usize>)
    ensures
        r == spec_lookup(table@, seq, table@.len() as int),
{
    let mut found: Option<usize> = None;
    let mut i: usize = 0;
    while i < table.len()
        invariant
            i <= table@.len(),
            found == spec_lookup(table@, seq, i as int),
        decreases table@.len() - i,
    {
        if table[i].seq == seq {
            found = Some(table[i].index);
        }
        i = i + 1;
    }
    found
}

/// A model that is being built from a snapshot, with the tables that tell
/// where the stored regions and executables have gone.
pub struct Loading {
    pub state: StateView,
    pub maps: Seq<SeqIndex>,
    pub exes: Seq<SeqIndex>,
}

impl Loading {
    /// The tables point into the registries of a well formed model.
    pub open spec fn wf(self) -> bool {
        &&& self.state.wf()
        &&& table_within(self.maps, self.state.maps.len() as int)
        &&& table_within(self.exes, self.state.exes.len() as int)
    }

    /// Takes in a stored region: it is registered under a new sequence
    /// number, unless the same region is registered already, and the table
    /// notes where the stored number has gone.
    ///
    /// Fails where the stored number has occurred before, and where no
    /// sequence number is left.
    pub open spec fn load_map(self, region: Region) -> Result<Loading, Failure> {
        if spec_lookup(self.maps, region.seq, self.maps.len() as int) is Some {
            Err(Failure::DuplicateSeq)
        } else if self.state.has_map(region) {
            Ok(
                Loading {
                    maps: self.maps.push(
                        SeqIndex {
                            seq: region.seq,
                            index: self.state.find_map(region)->Some_0 as usize,
                        },
                    ),
                    ..self
                },
            )
        } else if self.state.map_seq == i32::MAX {
            Err(Failure::SequenceExhausted)
        } else {
            Ok(
                Loading {
                    state: self.state.spec_register_map(region),
                    maps: self.maps.push(
                        SeqIndex { seq: region.seq, index: self.state.maps.len() as usize },
                    ),
                    ..self
                },
            )
        }
    }

    /// Takes in a stored executable: it is registered under a new sequence
    /// number, without chains, and the table notes where the stored number
    /// has gone.
    ///
    /// Fails where the stored number has occurred before, where the path is
    /// known already, and where no sequence number is left.
    pub open spec fn load_exe(self, exe: Exe, cycle: u32) -> Result<Loading, Failure> {
        if spec_lookup(self.exes, exe.seq, self.exes.len() as int) is Some {
            Err(Failure::DuplicateSeq)
        } else if self.state.has_exe(exe.path@) {
            Err(Failure::DuplicateExe)
        } else if self.state.exe_seq == i32::MAX {
            Err(Failure::SequenceExhausted)
        } else {
            Ok(
                Loading {
                    state: self.state.spec_register_exe(exe, false, cycle),
                    exes: self.exes.push(
                        SeqIndex { seq: exe.seq, index: self.state.exes.len() as usize },
                    ),
                    ..self
                },
            )
        }
    }

    /// Takes in a stored use of a region. A row that names an executable or
    /// a region that is not stored is passed over.
    pub open spec fn load_exemap(self, row: ExeMapRow) -> Loading {
        match (
            spec_lookup(self.exes, row.seq, self.exes.len() as int),
            spec_lookup(self.maps, row.map_seq, self.maps.len() as int),
        ) {
            (Some(exe), Some(map)) => Loading {
                state: self.state.spec_add_exemap(exe, map, row.prob),
                ..self
            },
            _ => self,
        }
    }

    /// Whether a stored chain is taken in: both its executables are stored
    /// and differ, and there is no chain for the two yet.
    pub open spec fn joins(self, row: MarkovRecord) -> bool {
        let a = spec_lookup(self.exes, row.a_seq, self.exes.len() as int);
        let b = spec_lookup(self.exes, row.b_seq, self.exes.len() as int);
        a is Some && b is Some && a->Some_0 != b->Some_0 && !self.state.linked(
            a->Some_0 as int,
            b->Some_0 as int,
        )
    }

    /// The chain that a stored row stands for, given its transition counts:
    /// it is in state 0, entered at time 0.
    pub open spec fn chain_of(self, row: MarkovRecord, weight: [[i32; 4]; 4], cycle: u32) -> Chain {
        Chain {
            a: spec_lookup(self.exes, row.a_seq, self.exes.len() as int)->Some_0,
            b: spec_lookup(self.exes, row.b_seq, self.exes.len() as int)->Some_0,
            state: 0,
            time: row.time,
            time_to_leave: row.time_to_leave,
            weight,
            change_timestamp: 0,
            cycle,
        }
    }

    /// Takes in a stored chain. A row that is not taken in is passed over.
    ///
    /// Fails where a row that is taken in has no balanced matrix of
    /// transition counts.
    pub open spec fn load_markov(self, row: MarkovRecord, cycle: u32) -> Result<Loading, Failure> {
        if !self.joins(row) {
            Ok(self)
        } else {
            match row.weight {
                Some(weight) => if weights_balanced(weight) {
                    Ok(
                        Loading {
                            state: StateView {
                                chains: self.state.chains.push(self.chain_of(row, weight, cycle)),
                                ..self.state
                            },
                            ..self
                        },
                    )
                } else {
                    Err(Failure::BadBlob)
                },
                None => Err(Failure::BadBlob),
            }
        }
    }

    /// Takes in the first `n` stored regions.
    pub open spec fn load_maps(self, maps: Seq<Region>, n: int) -> Result<Loading, Failure>
        decreases n,
    {
        if n <= 0 {
            Ok(self)
        } else {
            match self.load_maps(maps, n - 1) {
                Ok(loading) => loading.load_map(maps[n - 1]),
                Err(e) => Err(e),
            }
        }
    }

    /// Takes in the first `n` stored entries of executables that are too
    /// small.
    pub open spec fn load_bad_exes(self, entries: Seq<BadExe>, n: int) -> Loading
        decreases n,
    {
        if n <= 0 {
            self
        } else {
            let loading = self.load_bad_exes(entries, n - 1);
            Loading { state: loading.state.spec_note_bad_exe(entries[n - 1]), ..loading }
        }
    }

    /// Takes in the first `n` stored executables.
    pub open spec fn load_exes(self, exes: Seq<Exe>, cycle: u32, n: int) -> Result<Loading, Failure>
        decreases n,
    {
        if n <= 0 {
            Ok(self)
        } else {
            match self.load_exes(exes, cycle, n - 1) {
                Ok(loading) => loading.load_exe(exes[n - 1], cycle),
                Err(e) => Err(e),
            }
        }
    }

    /// Takes in the first `n` stored uses of regions.
    pub open spec fn load_exemaps(self, rows: Seq<ExeMapRow>, n: int) -> Loading
        decreases n,
    {
        if n <= 0 {
            self
        } else {
            self.load_exemaps(rows, n - 1).load_exemap(rows[n - 1])
        }
    }

    /// Takes in the first `n` stored chains.
    pub open spec fn load_markovs(self, rows: Seq<MarkovRecord>, cycle: u32, n: int) -> Result<
        Loading,
        Failure,
    >
        decreases n,
    {
        if n <= 0 {
            Ok(self)
        } else {
            match self.load_markovs(rows, cycle, n - 1) {
                Ok(loading) => loading.load_markov(rows[n - 1], cycle),
                Err(e) => Err(e),
            }
        }
    }
}

/// Once the taking in of regions has failed, it stays failed.
pub proof fn lemma_load_maps_fails(l: Loading, maps: Seq<Region>, i: int, n: int)
    requires
        0 <= i <= n,
        l.load_maps(maps, i) is Err,
    ensures
        l.load_maps(maps, n) == l.load_maps(maps, i),
    decreases n - i,
{
    if i < n {
        lemma_load_maps_fails(l, maps, i, n - 1);
    }
}

/// Once the taking in of executables has failed, it stays failed.
pub proof fn lemma_load_exes_fails(l: Loading, exes: Seq<Exe>, cycle: u32, i: int, n: int)
    requires
        0 <= i <= n,
        l.load_exes(exes, cycle, i) is Err,
    ensures
        l.load_exes(exes, cycle, n) == l.load_exes(exes, cycle, i),
    decreases n - i,
{
    if i < n {
        lemma_load_exes_fails(l, exes, cycle, i, n - 1);
    }
}

/// Once the taking in of chains has failed, it stays failed.
pub proof fn lemma_load_markovs_fails(
    l: Loading,
    rows: Seq<MarkovRecord>,
    cycle: u32,
    i: int,
    n: int,
)
    requires
        0 <= i <= n,
        l.load_markovs(rows, cycle, i) is Err,
    ensures
        l.load_markovs(rows, cycle, n) == l.load_markovs(rows, cycle, i),
    decreases n - i,
{
    if i < n {
        lemma_load_markovs_fails(l, rows, cycle, i, n - 1);
    }
}

/// A snapshot as mathematics sees it.
pub struct SnapshotView {
    pub time: Option<i32>,
    pub maps: Seq<Region>,
    pub bad_exes: Seq<BadExe>,
    pub exes: Seq<Exe>,
    pub exemaps: Seq<ExeMapRow>,
    pub markovs: Seq<MarkovRecord>,
}

impl View for Snapshot {
    type V = SnapshotView;

    open spec fn view(&self) -> SnapshotView {
        SnapshotView {
            time: self.time,
            maps: self.maps@,
            bad_exes: self.bad_exes@,
            exes: self.exes@,
            exemaps: self.exemaps@,
            markovs: self.markovs@,
        }
    }
}

impl StateView {
    /// A model that knows nothing, at time `time`.
    pub open spec fn blank(time: i32) -> StateView {
        StateView {
            time,
            exes: Seq::empty(),
            bad_exes: Seq::empty(),
            maps: Seq::empty(),
            exemaps: Seq::empty(),
            chains: Seq::empty(),
            running_exes: Seq::empty(),
            map_seq: 0,
            exe_seq: 0,
            last_running_timestamp: 0,
            last_accounting_timestamp: time,
            dirty: false,
            model_dirty: false,
            memstat: crate::proc::MemInfo {
                total: 0,
                free: 0,
                buffers: 0,
                cached: 0,
                pagein: 0,
                pageout: 0,
            },
            memstat_timestamp: 0,
            state_changed_exes: Seq::empty(),
            new_running_exes: Seq::empty(),
            new_exes: Seq::empty(),
        }
    }

    /// Adding a chain for two different known executables that have none
    /// keeps the invariant.
    pub proof fn lemma_add_chain(self, chain: Chain)
        requires
            self.wf(),
            chain.wf(),
            chain.a < self.exes.len(),
            chain.b < self.exes.len(),
            chain.a != chain.b,
            !self.linked(chain.a as int, chain.b as int),
        ensures
            (StateView { chains: self.chains.push(chain), ..self }).wf(),
    {
        let post = StateView { chains: self.chains.push(chain), ..self };
        assert forall|k: int| 0 <= k < post.chains.len() implies {
            &&& (#[trigger] post.chains[k]).wf()
            &&& post.chains[k].a < post.exes.len()
            &&& post.chains[k].b < post.exes.len()
            &&& post.chains[k].a != post.chains[k].b
        } by {
            if k < self.chains.len() {
                assert(post.chains[k] == self.chains[k]);
            }
        }
        assert forall|k: int, l: int| 0 <= k < l < post.chains.len() implies !crate::state::same_pair(
            #[trigger] post.chains[k],
            #[trigger] post.chains[l],
        ) by {
            assert(post.chains[k] == self.chains[k]);
            if l < self.chains.len() {
                assert(post.chains[l] == self.chains[l]);
            } else {
                if crate::state::same_pair(self.chains[k], chain) {
                    assert(links(self.chains[k], chain.a as int, chain.b as int));
                }
            }
        }
        self.lemma_wf_frame(post);
    }
}

/// The model that is built from a snapshot.
///
/// It starts out knowing nothing, at the time of the snapshot, or at time
/// zero where the snapshot has none. Then it takes in the stored regions,
/// the executables that are too small, the executables, the uses of
/// regions and the chains, table by table and row by row; the first
/// failure ends the building.
pub open spec fn spec_read_state(snapshot: SnapshotView, cycle: u32) -> Result<StateView, Failure> {
    let start = Loading {
        state: StateView::blank(
            match snapshot.time {
                Some(time) => time,
                None => 0,
            },
        ),
        maps: Seq::empty(),
        exes: Seq::empty(),
    };
    match start.load_maps(snapshot.maps, snapshot.maps.len() as int) {
        Err(e) => Err(e),
        Ok(mapped) => match mapped.load_bad_exes(
            snapshot.bad_exes,
            snapshot.bad_exes.len() as int,
        ).load_exes(snapshot.exes, cycle, snapshot.exes.len() as int) {
            Err(e) => Err(e),
            Ok(peopled) => match peopled.load_exemaps(
                snapshot.exemaps,
                snapshot.exemaps.len() as int,
            ).load_markovs(snapshot.markovs, cycle, snapshot.markovs.len() as int) {
                Err(e) => Err(e),
                Ok(done) => Ok(done.state),
            },
        },
    }
}

impl StateView {
    /// The stored row for use `k` of a region: it names the executable and
    /// the region by their sequence numbers.
    pub open spec fn exemap_row(self, k: int) -> ExeMapRow {
        ExeMapRow {
            seq: self.exes[self.exemaps[k].exe as int].seq,
            map_seq: self.maps[self.exemaps[k].map as int].seq,
            prob: self.exemaps[k].prob,
        }
    }

    /// What is stored of chain `k`: it names the executables by their
    /// sequence numbers.
    pub open spec fn markov_record(self, k: int) -> MarkovRecord {
        MarkovRecord {
            a_seq: self.exes[self.chains[k].a as int].seq,
            b_seq: self.exes[self.chains[k].b as int].seq,
            time: self.chains[k].time,
            time_to_leave: self.chains[k].time_to_leave,
            weight: Some(self.chains[k].weight),
        }
    }

    /// What the state store is to hold of the model: the time, the regions,
    /// the executables that are too small, the executables, the uses of
    /// regions and the chains, each chain once.
    pub open spec fn snapshot(self) -> SnapshotView {
        SnapshotView {
            time: Some(self.time),
            maps: self.maps,
            bad_exes: self.bad_exes,
            exes: self.exes,
            exemaps: Seq::new(self.exemaps.len(), |k: int| self.exemap_row(k)),
            markovs: Seq::new(self.chains.len(), |k: int| self.markov_record(k)),
        }
    }

    /// The model after it was saved: it does not differ from what was saved
    /// any more, and the executables that are too small are forgotten.
    pub open spec fn spec_saved(self) -> StateView {
        StateView { dirty: false, bad_exes: Seq::empty(), ..self }
    }
}

/// A copy of `regions`.
fn copy_regions(regions: &Vec<Region>) -> (copy: Vec<Region>)
    ensures
        copy@ == regions@,
{
    let mut copy: Vec<Region> = Vec::new();
    let mut i: usize = 0;
    while i < regions.len()
        invariant
            i <= regions@.len(),
            copy@ == regions@.subrange(0, i as int),
        decreases regions@.len() - i,
    {
        copy.push(regions[i].clone());
        assert(copy@ =~= regions@.subrange(0, i + 1));
        i = i + 1;
    }
    assert(regions@.subrange(0, regions@.len() as int) =~= regions@);
    copy
}

/// A copy of `exes`.
fn copy_exes(exes: &Vec<Exe>) -> (copy: Vec<Exe>)
    ensures
        copy@ == exes@,
{
    let mut copy: Vec<Exe> = Vec::new();
    let mut i: usize = 0;
    while i < exes.len()
        invariant
            i <= exes@.len(),
            copy@ == exes@.subrange(0, i as int),
        decreases exes@.len() - i,
    {
        copy.push(exes[i].clone());
        assert(copy@ =~= exes@.subrange(0, i + 1));
        i = i + 1;
    }
    assert(exes@.subrange(0, exes@.len() as int) =~= exes@);
    copy
}

/// A copy of `entries`.
fn copy_bad_exes(entries: &Vec<BadExe>) -> (copy: Vec<BadExe>)
    ensures
        copy@ == entries@,
{
    let mut copy: Vec<BadExe> = Vec::new();
    let mut i: usize = 0;
    while i < entries.len()
        invariant
            i <= entries@.len(),
            copy@ == entries@.subrange(0, i as int),
        decreases entries@.len() - i,
    {
        copy.push(entries[i].clone());
        assert(copy@ =~= entries@.subrange(0, i + 1));
        i = i + 1;
    }
    assert(entries@.subrange(0, entries@.len() as int) =~= entries@);
    copy
}

impl State {
    /// What the state store is to hold of the model.
    pub fn write_state(&self) -> (snapshot: Snapshot)
        requires
            self.wf(),
        ensures
            snapshot@ == self@.snapshot(),
            snapshot.chains_have_weights(),
    {
        let mut exemaps: Vec<ExeMapRow> = Vec::new();
        let mut i: usize = 0;
        while i < self.exemaps.len()
            invariant
                self.wf(),
                i <= self@.exemaps.len(),
                exemaps@ == Seq::new(i as nat, |k: int| self@.exemap_row(k)),
            decreases self@.exemaps.len() - i,
        {
            let use_ = self.exemaps[i];
            assert(use_ == self@.exemaps[i as int]);
            assert(use_.exe < self@.exes.len() && use_.map < self@.maps.len());
            exemaps.push(
                ExeMapRow {
                    seq: self.exes[use_.exe].seq,
                    map_seq: self.maps[use_.map].seq,
                    prob: use_.prob,
                },
            );
            assert(exemaps@ =~= Seq::new((i + 1) as nat, |k: int| self@.exemap_row(k)));
            i = i + 1;
        }
        let mut markovs: Vec<MarkovRecord> = Vec::new();
        let mut k: usize = 0;
        while k < self.chains.len()
            invariant
                self.wf(),
                k <= self@.chains.len(),
                markovs@ == Seq::new(k as nat, |j: int| self@.markov_record(j)),
            decreases self@.chains.len() - k,
        {
            let chain = &self.chains[k];
            assert(*chain == self@.chains[k as int]);
            assert(chain.a < self@.exes.len() && chain.b < self@.exes.len());
            markovs.push(
                MarkovRecord {
                    a_seq: self.exes[chain.a].seq,
                    b_seq: self.exes[chain.b].seq,
                    time: chain.time,
                    time_to_leave: chain.time_to_leave,
                    weight: Some(chain.weight),
                },
            );
            assert(markovs@ =~= Seq::new((k + 1) as nat, |j: int| self@.markov_record(j)));
            k = k + 1;
        }
        Snapshot {
            time: Some(self.time),
            maps: copy_regions(&self.maps),
            bad_exes: copy_bad_exes(&self.bad_exes),
            exes: copy_exes(&self.exes),
            exemaps,
            markovs,
        }
    }

    /// Notes that the model has been saved: it does not differ from what was
    /// saved any more, and the executables that are too small are forgotten.
    pub fn save(&mut self)
        requires
            old(self).wf(),
        ensures
            final(self).wf(),
            final(self)@ == old(self)@.spec_saved(),
    {
        self.dirty = false;
        self.bad_exes.clear();
        proof {
            let post = self@;
            assert(post.bad_exes =~= Seq::<BadExe>::empty());
            assert(post == old(self)@.spec_saved());
            old(self)@.lemma_wf_frame(post);
        }
    }

    /// Whether there is a chain for the executables `x` and `y`.
    pub fn linked(&self, x: usize, y: usize) -> (r: bool)
        ensures
            r == self@.linked(x as int, y as int),
    {
        let mut k: usize = 0;
        while k < self.chains.len()
            invariant
                k <= self@.chains.len(),
                forall|j: int| 0 <= j < k ==> !links(#[trigger] self@.chains[j], x as int, y as int),
            decreases self@.chains.len() - k,
        {
            let chain = &self.chains[k];
            if (chain.a == x && chain.b == y) || (chain.a == y && chain.b == x) {
                assert(links(self@.chains[k as int], x as int, y as int));
                return true;
            }
            k = k + 1;
        }
        false
    }

    /// Builds the model from what the state store holds of it.
    ///
    /// No executable of the model is running or has changed state, and every
    /// chain is in state 0: what is running is for a scan to tell.
    pub fn read_state(snapshot: &Snapshot, cycle: u32) -> (r: Result<State, Failure>)
        ensures
            r is Ok ==> r->Ok_0.wf(),
            match r {
                Ok(state) => spec_read_state(snapshot@, cycle) == Ok::<StateView, Failure>(state@),
                Err(e) => spec_read_state(snapshot@, cycle) == Err::<StateView, Failure>(e),
            },
    {
        let mut state = State::new();
        let ghost fresh = state@;
        match snapshot.time {
            Some(time) => {
                state.time = time;
                state.last_accounting_timestamp = time;
            },
            None => {},
        }
        let ghost start = Loading { state: state@, maps: Seq::empty(), exes: Seq::empty() };
        proof {
            let blank = StateView::blank(
                match snapshot.time {
                    Some(time) => time,
                    None => 0,
                },
            );
            assert(state@.exes =~= blank.exes);
            assert(state@.bad_exes =~= blank.bad_exes);
            assert(state@.maps =~= blank.maps);
            assert(state@.exemaps =~= blank.exemaps);
            assert(state@.chains =~= blank.chains);
            assert(state@.running_exes =~= blank.running_exes);
            assert(state@.state_changed_exes =~= blank.state_changed_exes);
            assert(state@.new_running_exes =~= blank.new_running_exes);
            assert(state@.new_exes =~= blank.new_exes);
            assert(state@ == blank);
            fresh.lemma_wf_frame(start.state);
        }
        let mut map_table: Vec<SeqIndex> = Vec::new();
        let mut exe_table: Vec<SeqIndex> = Vec::new();
        let mut i: usize = 0;
        while i < snapshot.maps.len()
            invariant
                i <= snapshot@.maps.len(),
                state.wf(),
                exe_table@.len() == 0,
                table_within(map_table@, state@.maps.len() as int),
                start == (Loading {
                    state: StateView::blank(
                        match snapshot@.time {
                            Some(time) => time,
                            None => 0,
                        },
                    ),
                    maps: Seq::empty(),
                    exes: Seq::empty(),
                }),
                start.load_maps(snapshot@.maps, i as int) == Ok::<Loading, Failure>(
                    Loading { state: state@, maps: map_table@, exes: exe_table@ },
                ),
            decreases snapshot@.maps.len() - i,
        {
            let region = snapshot.maps[i].clone();
            if lookup(&map_table, region.seq).is_some() {
                proof {
                    lemma_load_maps_fails(
                        start,
                        snapshot@.maps,
                        i + 1,
                        snapshot@.maps.len() as int,
                    );
                }
                return Err(Failure::DuplicateSeq);
            }
            let index = match state.find_map(&region) {
                Some(index) => index,
                None => {
                    match state.register_map(region) {
                        Ok(_) => state.maps.len() - 1,
                        Err(_) => {
                            proof {
                                lemma_load_maps_fails(
                                    start,
                                    snapshot@.maps,
                                    i + 1,
                                    snapshot@.maps.len() as int,
                                );
                            }
                            return Err(Failure::SequenceExhausted);
                        },
                    }
                },
            };
            map_table.push(SeqIndex { seq: snapshot.maps[i].seq, index });
            i = i + 1;
        }
        let ghost mapped = Loading { state: state@, maps: map_table@, exes: exe_table@ };
        assert(start.load_maps(snapshot@.maps, snapshot@.maps.len() as int) == Ok::<
            Loading,
            Failure,
        >(mapped));
        let mut i: usize = 0;
        while i < snapshot.bad_exes.len()
            invariant
                i <= snapshot@.bad_exes.len(),
                state.wf(),
                exe_table@.len() == 0,
                state@.maps.len() == mapped.state.maps.len(),
                table_within(map_table@, state@.maps.len() as int),
                mapped.load_bad_exes(snapshot@.bad_exes, i as int) == (Loading {
                    state: state@,
                    maps: map_table@,
                    exes: exe_table@,
                }),
            decreases snapshot@.bad_exes.len() - i,
        {
            state.note_bad_exe(snapshot.bad_exes[i].clone());
            i = i + 1;
        }
        let ghost noted = Loading { state: state@, maps: map_table@, exes: exe_table@ };
        let mut i: usize = 0;
        while i < snapshot.exes.len()
            invariant
                i <= snapshot@.exes.len(),
                state.wf(),
                state@.maps.len() == mapped.state.maps.len(),
                table_within(map_table@, state@.maps.len() as int),
                table_within(exe_table@, state@.exes.len() as int),
                spec_read_state(snapshot@, cycle) == (match noted.load_exes(
                    snapshot@.exes,
                    cycle,
                    snapshot@.exes.len() as int,
                ) {
                    Err(e) => Err::<StateView, Failure>(e),
                    Ok(peopled) => match peopled.load_exemaps(
                        snapshot@.exemaps,
                        snapshot@.exemaps.len() as int,
                    ).load_markovs(snapshot@.markovs, cycle, snapshot@.markovs.len() as int) {
                        Err(e) => Err::<StateView, Failure>(e),
                        Ok(done) => Ok::<StateView, Failure>(done.state),
                    },
                }),
                noted.load_exes(snapshot@.exes, cycle, i as int) == Ok::<Loading, Failure>(
                    Loading { state: state@, maps: map_table@, exes: exe_table@ },
                ),
            decreases snapshot@.exes.len() - i,
        {
            let exe = snapshot.exes[i].clone();
            if lookup(&exe_table, exe.seq).is_some() {
                proof {
                    lemma_load_exes_fails(
                        noted,
                        snapshot@.exes,
                        cycle,
                        i + 1,
                        snapshot@.exes.len() as int,
                    );
                }
                return Err(Failure::DuplicateSeq);
            }
            let seq = exe.seq;
            let index = state.exes.len();
            match state.register_exe(exe, false, cycle) {
                Ok(_) => {},
                Err(e) => {
                    proof {
                        lemma_load_exes_fails(
                            noted,
                            snapshot@.exes,
                            cycle,
                            i + 1,
                            snapshot@.exes.len() as int,
                        );
                    }
                    return Err(e);
                },
            }
            exe_table.push(SeqIndex { seq, index });
            i = i + 1;
        }
        let ghost peopled = Loading { state: state@, maps: map_table@, exes: exe_table@ };
        assert(noted.load_exes(snapshot@.exes, cycle, snapshot@.exes.len() as int) == Ok::<
            Loading,
            Failure,
        >(peopled));
        let mut i: usize = 0;
        while i < snapshot.exemaps.len()
            invariant
                i <= snapshot@.exemaps.len(),
                state.wf(),
                table_within(map_table@, state@.maps.len() as int),
                table_within(exe_table@, state@.exes.len() as int),
                exe_table@ == peopled.exes,
                map_table@ == peopled.maps,
                peopled.load_exemaps(snapshot@.exemaps, i as int) == (Loading {
                    state: state@,
                    maps: map_table@,
                    exes: exe_table@,
                }),
            decreases snapshot@.exemaps.len() - i,
        {
            let row = snapshot.exemaps[i];
            proof {
                lemma_lookup_within(
                    exe_table@,
                    row.seq,
                    exe_table@.len() as int,
                    state@.exes.len() as int,
                );
                lemma_lookup_within(
                    map_table@,
                    row.map_seq,
                    map_table@.len() as int,
                    state@.maps.len() as int,
                );
            }
            match (lookup(&exe_table, row.seq), lookup(&map_table, row.map_seq)) {
                (Some(exe), Some(map)) => {
                    state.add_exemap(exe, map, row.prob);
                },
                _ => {},
            }
            i = i + 1;
        }
        let ghost used = Loading { state: state@, maps: map_table@, exes: exe_table@ };
        let mut i: usize = 0;
        while i < snapshot.markovs.len()
            invariant
                i <= snapshot@.markovs.len(),
                state.wf(),
                exe_table@ == used.exes,
                map_table@ == used.maps,
                table_within(exe_table@, state@.exes.len() as int),
                spec_read_state(snapshot@, cycle) == (match used.load_markovs(
                    snapshot@.markovs,
                    cycle,
                    snapshot@.markovs.len() as int,
                ) {
                    Err(e) => Err::<StateView, Failure>(e),
                    Ok(done) => Ok::<StateView, Failure>(done.state),
                }),
                used.load_markovs(snapshot@.markovs, cycle, i as int) == Ok::<Loading, Failure>(
                    Loading { state: state@, maps: map_table@, exes: exe_table@ },
                ),
            decreases snapshot@.markovs.len() - i,
        {
            let row = &snapshot.markovs[i];
            let ghost here = Loading { state: state@, maps: map_table@, exes: exe_table@ };
            proof {
                lemma_lookup_within(
                    exe_table@,
                    row.a_seq,
                    exe_table@.len() as int,
                    state@.exes.len() as int,
                );
                lemma_lookup_within(
                    exe_table@,
                    row.b_seq,
                    exe_table@.len() as int,
                    state@.exes.len() as int,
                );
            }
            match (lookup(&exe_table, row.a_seq), lookup(&exe_table, row.b_seq)) {
                (Some(a), Some(b)) => {
                    if a != b && !state.linked(a, b) {
                        assert(here.joins(*row));
                        let weight = match row.weight {
                            Some(weight) => weight,
                            None => {
                                proof {
                                    lemma_load_markovs_fails(
                                        used,
                                        snapshot@.markovs,
                                        cycle,
                                        i + 1,
                                        snapshot@.markovs.len() as int,
                                    );
                                }
                                return Err(Failure::BadBlob);
                            },
                        };
                        if !crate::database::check_weights(&weight) {
                            proof {
                                lemma_load_markovs_fails(
                                    used,
                                    snapshot@.markovs,
                                    cycle,
                                    i + 1,
                                    snapshot@.markovs.len() as int,
                                );
                            }
                            return Err(Failure::BadBlob);
                        }
                        let chain = Chain {
                            a,
                            b,
                            state: 0,
                            time: row.time,
                            time_to_leave: row.time_to_leave,
                            weight,
                            change_timestamp: 0,
                            cycle,
                        };
                        proof {
                            assert(chain == here.chain_of(*row, weight, cycle));
                            state@.lemma_add_chain(chain);
                        }
                        state.chains.push(chain);
                    } else {
                        assert(!here.joins(*row));
                    }
                },
                _ => {
                    assert(!here.joins(*row));
                },
            }
            i = i + 1;
        }
        Ok(state)
    }
}

impl StateView {
    /// The model after the executable at `path` was found running at time
    /// `time`: a known executable is stamped and joins the running ones,
    /// unless it is among them already.
    pub open spec fn spec_set_running_process(self, path: Seq<char>, time: i32) -> StateView {
        match self.find_exe(path) {
            Some(i) => StateView {
                exes: self.exes.update(i, Exe { running_timestamp: time, ..self.exes[i] }),
                running_exes: if self.running_exes.contains(i as usize) {
                    self.running_exes
                } else {
                    self.running_exes.push(i as usize)
                },
                ..self
            },
            None => self,
        }
    }

    /// The model after those of the first `n` of `processes` that a scan
    /// takes notice of were found running at time `time`.
    pub open spec fn spec_set_running_processes(
        self,
        processes: Seq<Process>,
        own_pid: i32,
        prefixes: Option<Seq<String>>,
        time: i32,
        n: int,
    ) -> StateView
        decreases n,
    {
        if n <= 0 {
            self
        } else {
            let marked = self.spec_set_running_processes(processes, own_pid, prefixes, time, n - 1);
            if Self::notices(processes[n - 1], own_pid, prefixes) {
                marked.spec_set_running_process(processes[n - 1].exe@, time)
            } else {
                marked
            }
        }
    }

    /// The model after every chain was put into the state that its
    /// executables are in.
    pub open spec fn spec_set_markov_states(self) -> StateView {
        StateView {
            chains: Seq::new(
                self.chains.len(),
                |k: int| Chain { state: self.current_state(k) as usize, ..self.chains[k] },
            ),
            ..self
        }
    }

    /// The model that has just been built, after it was told what is
    /// running: the executables of `processes` are found running at the
    /// model's time, which becomes the time of the last scan; every chain is
    /// put into the state that its executables are in; and the memory
    /// statistics are `memstat`.
    pub open spec fn spec_loaded(
        self,
        processes: Seq<Process>,
        own_pid: i32,
        prefixes: Option<Seq<String>>,
        memstat: MemInfo,
    ) -> StateView {
        let marked = self.spec_set_running_processes(
            processes,
            own_pid,
            prefixes,
            self.time,
            processes.len() as int,
        );
        let stamped = StateView { last_running_timestamp: self.time, ..marked };
        StateView { memstat, memstat_timestamp: self.time, ..stamped.spec_set_markov_states() }
    }
}

impl State {
    /// Whether executable `exe` is among the running ones.
    pub fn is_listed_running(&self, exe: usize) -> (r: bool)
        ensures
            r == self@.running_exes.contains(exe),
    {
        let mut k: usize = 0;
        while k < self.running_exes.len()
            invariant
                k <= self@.running_exes.len(),
                forall|j: int| 0 <= j < k ==> self@.running_exes[j] != exe,
            decreases self@.running_exes.len() - k,
        {
            if self.running_exes[k] == exe {
                assert(self@.running_exes[k as int] == exe);
                return true;
            }
            k = k + 1;
        }
        false
    }

    /// Takes in that the executable at `path` was found running at time
    /// `time`.
    pub fn set_running_process_callback(&mut self, path: &String, time: i32)
        requires
            old(self).wf(),
        ensures
            final(self).wf(),
            final(self)@ == old(self)@.spec_set_running_process(path@, time),
            final(self)@.time == old(self)@.time,
    {
        match self.find_exe(path) {
            Some(i) => {
                let listed = self.is_listed_running(i);
                self.exes[i].running_timestamp = time;
                if !listed {
                    self.running_exes.push(i);
                }
                proof {
                    let post = old(self)@.spec_set_running_process(path@, time);
                    assert(self@.exes =~= post.exes);
                    assert(self@.running_exes =~= post.running_exes);
                    assert(self@ == post);
                    old(self)@.lemma_update_exe(
                        i as int,
                        Exe { running_timestamp: time, ..old(self)@.exes[i as int] },
                    );
                    let mid = StateView { exes: post.exes, ..old(self)@ };
                    assert forall|k: int| 0 <= k < post.running_exes.len() implies #[trigger] post.running_exes[k]
                        < mid.exes.len() by {
                        if k < mid.running_exes.len() {
                            assert(post.running_exes[k] == mid.running_exes[k]);
                        }
                    }
                    mid.lemma_update_lists(post);
                }
            },
            None => {},
        }
    }

    /// Puts every chain into the state that its executables are in.
    pub fn set_markov_states(&mut self)
        requires
            old(self).wf(),
        ensures
            final(self).wf(),
            final(self)@ == old(self)@.spec_set_markov_states(),
    {
        let ghost before = self@;
        let clock = self.clock();
        let mut k: usize = 0;
        while k < self.chains.len()
            invariant
                before == old(self)@,
                before.wf(),
                clock == before.clock(),
                k <= self.chains@.len(),
                self.chains@.len() == before.chains.len(),
                forall|j: int|
                    0 <= j < k ==> #[trigger] self.chains@[j] == before.spec_set_markov_states().chains[j],
                forall|j: int|
                    k <= j < self.chains@.len() ==> #[trigger] self.chains@[j] == before.chains[j],
                self.time == old(self).time,
                self.exes == old(self).exes,
                self.bad_exes == old(self).bad_exes,
                self.maps == old(self).maps,
                self.exemaps == old(self).exemaps,
                self.running_exes == old(self).running_exes,
                self.map_seq == old(self).map_seq,
                self.exe_seq == old(self).exe_seq,
                self.last_running_timestamp == old(self).last_running_timestamp,
                self.last_accounting_timestamp == old(self).last_accounting_timestamp,
                self.dirty == old(self).dirty,
                self.model_dirty == old(self).model_dirty,
                self.memstat == old(self).memstat,
                self.memstat_timestamp == old(self).memstat_timestamp,
                self.state_changed_exes == old(self).state_changed_exes,
                self.new_running_exes == old(self).new_running_exes,
                self.new_exes == old(self).new_exes,
            decreases self.chains@.len() - k,
        {
            let chain = self.chains[k];
            assert(chain == before.chains[k as int]);
            assert(chain.a < before.exes.len() && chain.b < before.exes.len());
            self.chains[k].state = get_markov_state(
                self.exes[chain.a].is_running(&clock),
                self.exes[chain.b].is_running(&clock),
            );
            k = k + 1;
        }
        proof {
            let post = before.spec_set_markov_states();
            assert(self@.chains =~= post.chains);
            assert(self@ == post);
            assert forall|j: int, l: int| 0 <= j < l < post.chains.len() implies !crate::state::same_pair(
                #[trigger] post.chains[j],
                #[trigger] post.chains[l],
            ) by {
                assert(!crate::state::same_pair(before.chains[j], before.chains[l]));
            }
            assert forall|j: int| 0 <= j < post.chains.len() implies {
                &&& (#[trigger] post.chains[j]).wf()
                &&& post.chains[j].a < post.exes.len()
                &&& post.chains[j].b < post.exes.len()
                &&& post.chains[j].a != post.chains[j].b
            } by {
                assert(before.chains[j].wf());
            }
            before.lemma_wf_frame(post);
        }
    }

    /// Builds the model from what the state store holds of it and tells it
    /// what is running.
    ///
    /// A snapshot that a newer major version wrote is ignored: the model
    /// starts out knowing nothing. `processes` are the running processes, of
    /// which `own_pid` is passed over and `exeprefix` is the filter, and
    /// `memstat` is a fresh snapshot of the memory statistics.
    pub fn load(
        snapshot: &Snapshot,
        check: VersionCheck,
        cycle: u32,
        processes: &Vec<Process>,
        own_pid: i32,
        exeprefix: Option<&[String]>,
        memstat: MemInfo,
    ) -> (r: Result<State, Failure>)
        ensures
            r is Ok ==> r->Ok_0.wf(),
            check == VersionCheck::Newer ==> r is Ok && r->Ok_0@ == StateView::blank(0).spec_loaded(
                processes@,
                own_pid,
                match exeprefix {
                    Some(rules) => Some(rules@),
                    None => None,
                },
                memstat,
            ),
            check != VersionCheck::Newer ==> (match r {
                Ok(state) => spec_read_state(snapshot@, cycle) is Ok && state@ == spec_read_state(
                    snapshot@,
                    cycle,
                )->Ok_0.spec_loaded(
                    processes@,
                    own_pid,
                    match exeprefix {
                        Some(rules) => Some(rules@),
                        None => None,
                    },
                    memstat,
                ),
                Err(e) => spec_read_state(snapshot@, cycle) == Err::<StateView, Failure>(e),
            }),
    {
        let mut state = match check {
            VersionCheck::Newer => {
                let fresh = State::new();
                proof {
                    let blank = StateView::blank(0);
                    assert(fresh@.exes =~= blank.exes);
                    assert(fresh@.bad_exes =~= blank.bad_exes);
                    assert(fresh@.maps =~= blank.maps);
                    assert(fresh@.exemaps =~= blank.exemaps);
                    assert(fresh@.chains =~= blank.chains);
                    assert(fresh@.running_exes =~= blank.running_exes);
                    assert(fresh@.state_changed_exes =~= blank.state_changed_exes);
                    assert(fresh@.new_running_exes =~= blank.new_running_exes);
                    assert(fresh@.new_exes =~= blank.new_exes);
                    assert(fresh@ == blank);
                }
                fresh
            },
            _ => match State::read_state(snapshot, cycle) {
                Ok(state) => state,
                Err(e) => {
                    return Err(e);
                },
            },
        };
        let ghost built = state@;
        let ghost rules = match exeprefix {
            Some(rules) => Some(rules@),
            None => None,
        };
        let time = state.time;
        let mut i: usize = 0;
        while i < processes.len()
            invariant
                i <= processes@.len(),
                state.wf(),
                time == built.time,
                rules == (match exeprefix {
                    Some(rules) => Some(rules@),
                    None => None,
                }),
                state@ == built.spec_set_running_processes(processes@, own_pid, rules, time, i as int),
            decreases processes@.len() - i,
        {
            let process = &processes[i];
            if process.pid != own_pid && accept_file(process.exe.as_str(), exeprefix) {
                state.set_running_process_callback(&process.exe, time);
            }
            i = i + 1;
        }
        let ghost marked = state@;
        state.last_running_timestamp = time;
        proof {
            let post = state@;
            assert(marked.lists_wf());
            assert(post.running_exes == marked.running_exes);
            assert(post.new_running_exes == marked.new_running_exes);
            assert(post.state_changed_exes == marked.state_changed_exes);
            assert forall|k: int| 0 <= k < post.running_exes.len() implies #[trigger] post.running_exes[k]
                < marked.exes.len() by {
                assert(marked.running_exes[k] < marked.exes.len());
            }
            assert forall|k: int| 0 <= k < post.new_running_exes.len() implies #[trigger] post.new_running_exes[k]
                < marked.exes.len() by {
                assert(marked.new_running_exes[k] < marked.exes.len());
            }
            assert forall|k: int| 0 <= k < post.state_changed_exes.len() implies #[trigger] post.state_changed_exes[k]
                < marked.exes.len() by {
                assert(marked.state_changed_exes[k] < marked.exes.len());
            }
            marked.lemma_update_lists(post);
        }
        state.set_markov_states();
        let ghost settled = state@;
        state.memstat = memstat;
        state.memstat_timestamp = time;
        proof {
            let post = state@;
            settled.lemma_wf_frame(post);
        }
        Ok(state)
    }
}

impl Snapshot {
    /// Whether `rows` hold this snapshot as written by `version`: row by row
    /// the same, with every path as its URI.
    pub open spec fn spec_rows(&self, version: Seq<char>, rows: Rows) -> bool {
        &&& rows.state is Some <==> self.time is Some
        &&& rows.state is Some ==> rows.state->Some_0.version@ == version && rows.state->Some_0.time
            == self.time->Some_0
        &&& rows.maps@.len() == self.maps@.len()
        &&& forall|i: int|
            0 <= i < self.maps@.len() ==> self.maps@[i].spec_row(#[trigger] rows.maps@[i]) && Some(
                rows.maps@[i].uri@,
            ) == crate::database::file_uri(self.maps@[i].path@)
        &&& rows.badexes@.len() == self.bad_exes@.len()
        &&& forall|i: int|
            0 <= i < self.bad_exes@.len() ==> (#[trigger] rows.badexes@[i]).update_time
                == self.bad_exes@[i].size as i32 && Some(rows.badexes@[i].uri@)
                == crate::database::file_uri(self.bad_exes@[i].path@)
        &&& rows.exes@.len() == self.exes@.len()
        &&& forall|i: int|
            0 <= i < self.exes@.len() ==> {
                &&& (#[trigger] rows.exes@[i]).seq == self.exes@[i].seq
                &&& rows.exes@[i].update_time == self.exes@[i].update_time
                &&& rows.exes@[i].time == self.exes@[i].time
                &&& Some(rows.exes@[i].uri@) == crate::database::file_uri(self.exes@[i].path@)
            }
        &&& rows.exemaps@ == self.exemaps@
        &&& rows.markovs@.len() == self.markovs@.len()
        &&& forall|i: int|
            0 <= i < self.markovs@.len() ==> self.markovs@[i].spec_row(#[trigger] rows.markovs@[i])
    }

    /// Every chain of the snapshot has its matrix of transition counts.
    pub open spec fn chains_have_weights(&self) -> bool {
        forall|i: int| 0 <= i < self.markovs@.len() ==> (#[trigger] self.markovs@[i]).weight is Some
    }

    /// Every path of the snapshot has a URI.
    pub open spec fn paths_have_uris(&self) -> bool {
        &&& forall|i: int|
            0 <= i < self.maps@.len() ==> crate::database::file_uri(
                (#[trigger] self.maps@[i]).path@,
            ) is Some
        &&& forall|i: int|
            0 <= i < self.bad_exes@.len() ==> crate::database::file_uri(
                (#[trigger] self.bad_exes@[i]).path@,
            ) is Some
        &&& forall|i: int|
            0 <= i < self.exes@.len() ==> crate::database::file_uri(
                (#[trigger] self.exes@[i]).path@,
            ) is Some
    }

    /// The rows that hold this snapshot as written by `version`.
    ///
    /// Fails with [`Failure::BadPath`] where a path has no URI, and
    /// otherwise with [`Failure::BadWeights`] where a chain has no matrix of
    /// transition counts.
    pub fn to_rows(self, version: &str) -> (r: Result<Rows, Failure>)
        ensures
            r is Ok <==> self.paths_have_uris() && self.chains_have_weights(),
            r is Ok ==> self.spec_rows(version@, r->Ok_0),
            r == Err::<Rows, Failure>(Failure::BadPath) <==> !self.paths_have_uris(),
            r == Err::<Rows, Failure>(Failure::BadWeights) <==> self.paths_have_uris()
                && !self.chains_have_weights(),
    {
        let state = match self.time {
            Some(time) => Some(StateRow { version: version.to_owned(), time }),
            None => None,
        };
        let mut maps: Vec<MapRow> = Vec::new();
        let mut i: usize = 0;
        while i < self.maps.len()
            invariant
                i <= self.maps@.len(),
                maps@.len() == i,
                forall|j: int|
                    0 <= j < i ==> self.maps@[j].spec_row(#[trigger] maps@[j]) && Some(
                        maps@[j].uri@,
                    ) == crate::database::file_uri(self.maps@[j].path@),
            decreases self.maps@.len() - i,
        {
            match self.maps[i].to_row() {
                Ok(row) => {
                    maps.push(row);
                },
                Err(_) => {
                    assert(crate::database::file_uri(self.maps@[i as int].path@) is None);
                    return Err(Failure::BadPath);
                },
            }
            i = i + 1;
        }
        let mut badexes: Vec<BadExeRow> = Vec::new();
        let mut i: usize = 0;
        while i < self.bad_exes.len()
            invariant
                i <= self.bad_exes@.len(),
                badexes@.len() == i,
                forall|j: int|
                    0 <= j < i ==> (#[trigger] badexes@[j]).update_time
                        == self.bad_exes@[j].size as i32 && Some(badexes@[j].uri@)
                        == crate::database::file_uri(self.bad_exes@[j].path@),
            decreases self.bad_exes@.len() - i,
        {
            match self.bad_exes[i].to_row() {
                Ok(row) => {
                    badexes.push(row);
                },
                Err(_) => {
                    assert(crate::database::file_uri(self.bad_exes@[i as int].path@) is None);
                    return Err(Failure::BadPath);
                },
            }
            i = i + 1;
        }
        let mut exes: Vec<ExeRow> = Vec::new();
        let mut i: usize = 0;
        while i < self.exes.len()
            invariant
                i <= self.exes@.len(),
                exes@.len() == i,
                forall|j: int|
                    0 <= j < i ==> {
                        &&& (#[trigger] exes@[j]).seq == self.exes@[j].seq
                        &&& exes@[j].update_time == self.exes@[j].update_time
                        &&& exes@[j].time == self.exes@[j].time
                        &&& Some(exes@[j].uri@) == crate::database::file_uri(self.exes@[j].path@)
                    },
            decreases self.exes@.len() - i,
        {
            match self.exes[i].to_row() {
                Ok(row) => {
                    exes.push(row);
                },
                Err(_) => {
                    assert(crate::database::file_uri(self.exes@[i as int].path@) is None);
                    return Err(Failure::BadPath);
                },
            }
            i = i + 1;
        }
        proof {
            assert forall|i: int| 0 <= i < self.maps@.len() implies crate::database::file_uri(
                (#[trigger] self.maps@[i]).path@,
            ) is Some by {
                assert(Some(maps@[i].uri@) == crate::database::file_uri(self.maps@[i].path@));
            }
            assert forall|i: int| 0 <= i < self.bad_exes@.len() implies crate::database::file_uri(
                (#[trigger] self.bad_exes@[i]).path@,
            ) is Some by {
                assert(Some(badexes@[i].uri@) == crate::database::file_uri(
                    self.bad_exes@[i].path@,
                ));
            }
            assert forall|i: int| 0 <= i < self.exes@.len() implies crate::database::file_uri(
                (#[trigger] self.exes@[i]).path@,
            ) is Some by {
                assert(Some(exes@[i].uri@) == crate::database::file_uri(self.exes@[i].path@));
            }
        }
        let mut markovs: Vec<MarkovRow> = Vec::new();
        let mut i: usize = 0;
        while i < self.markovs.len()
            invariant
                i <= self.markovs@.len(),
                markovs@.len() == i,
                self.paths_have_uris(),
                forall|j: int| 0 <= j < i ==> self.markovs@[j].spec_row(#[trigger] markovs@[j]),
                forall|j: int| 0 <= j < i ==> (#[trigger] self.markovs@[j]).weight is Some,
            decreases self.markovs@.len() - i,
        {
            match self.markovs[i].to_row() {
                Ok(row) => {
                    markovs.push(row);
                },
                Err(_) => {
                    assert(self.markovs@[i as int].weight is None);
                    return Err(Failure::BadWeights);
                },
            }
            i = i + 1;
        }
        Ok(Rows { state, maps, badexes, exes, exemaps: self.exemaps, markovs })
    }
}

impl Rows {
    /// How the version that wrote the rows compares with the version
    /// `running`, or that the rows hold no row for the state.
    ///
    /// Fails with [`Failure::BadVersion`] where a version cannot be read.
    pub fn read_self(&self, running: &str) -> (r: Result<VersionCheck, Failure>)
        ensures
            r == self.spec_read_self(running@),
            r is Ok ==> (r->Ok_0 == VersionCheck::NoState <==> self.state is None),
    {
        match &self.state {
            None => Ok(VersionCheck::NoState),
            Some(row) => {
                let r = check_version(running, row.version.as_str());
                proof {
                    let mine = crate::database::semver_major(running@);
                    let theirs = crate::database::semver_major(row.version@);
                    if mine is Some && theirs is Some {
                        assert(crate::database::spec_compare_majors(mine->Some_0, theirs->Some_0)
                            != VersionCheck::NoState);
                    }
                }
                r
            },
        }
    }

    /// How the version that wrote the rows compares with the version
    /// `running`.
    pub open spec fn spec_read_self(&self, running: Seq<char>) -> Result<VersionCheck, Failure> {
        match self.state {
            None => Ok(VersionCheck::NoState),
            Some(row) => match (
                crate::database::semver_major(running),
                crate::database::semver_major(row.version@),
            ) {
                (Some(mine), Some(theirs)) => Ok(crate::database::spec_compare_majors(mine, theirs)),
                _ => Err(Failure::BadVersion),
            },
        }
    }

    /// Builds the model from the rows of the store and tells it what is
    /// running, and says how the version that wrote the rows compares with
    /// the version `running`.
    ///
    /// The version is looked at first: rows that a newer major version wrote
    /// are ignored, whatever they hold, and the model starts out knowing
    /// nothing. Otherwise the rows are converted and the model is built from
    /// them as [`State::load`] builds it.
    ///
    /// Fails with [`Failure::BadVersion`] where a version cannot be read,
    /// with [`Failure::BadUri`] where rows that are not ignored hold a URI
    /// that names no file path, and as the building fails.
    pub fn load(
        self,
        running: &str,
        cycle: u32,
        processes: &Vec<Process>,
        own_pid: i32,
        exeprefix: Option<&[String]>,
        memstat: MemInfo,
    ) -> (r: Result<(State, VersionCheck), Failure>)
        ensures
            r is Ok ==> r->Ok_0.0.wf() && self.spec_read_self(running@) == Ok::<
                VersionCheck,
                Failure,
            >(r->Ok_0.1),
            self.spec_read_self(running@) is Err ==> r is Err && r->Err_0 == Failure::BadVersion,
            self.spec_read_self(running@) == Ok::<VersionCheck, Failure>(VersionCheck::Newer)
                ==> r is Ok && r->Ok_0.0@ == StateView::blank(0).spec_loaded(
                processes@,
                own_pid,
                match exeprefix {
                    Some(rules) => Some(rules@),
                    None => None,
                },
                memstat,
            ),
            self.spec_read_self(running@) is Ok && self.spec_read_self(running@)->Ok_0
                != VersionCheck::Newer && !self.uris_name_files() ==> r is Err && r->Err_0
                == Failure::BadUri,
            self.spec_read_self(running@) is Ok && self.spec_read_self(running@)->Ok_0
                != VersionCheck::Newer && self.uris_name_files() ==> exists|snapshot: Snapshot|
                #[trigger] self.spec_snapshot(snapshot) && (match r {
                    Ok(loaded) => spec_read_state(snapshot@, cycle) is Ok && loaded.0@
                        == spec_read_state(snapshot@, cycle)->Ok_0.spec_loaded(
                        processes@,
                        own_pid,
                        match exeprefix {
                            Some(rules) => Some(rules@),
                            None => None,
                        },
                        memstat,
                    ),
                    Err(e) => spec_read_state(snapshot@, cycle) == Err::<StateView, Failure>(e),
                }),
    {
        let check = match self.read_self(running) {
            Ok(check) => check,
            Err(_) => {
                return Err(Failure::BadVersion);
            },
        };
        match check {
            VersionCheck::Newer => {
                let nothing = Snapshot {
                    time: None,
                    maps: Vec::new(),
                    bad_exes: Vec::new(),
                    exes: Vec::new(),
                    exemaps: Vec::new(),
                    markovs: Vec::new(),
                };
                match State::load(&nothing, check, cycle, processes, own_pid, exeprefix, memstat) {
                    Ok(state) => Ok((state, check)),
                    Err(e) => Err(e),
                }
            },
            _ => {
                let ghost rows = self;
                let snapshot = match self.to_snapshot() {
                    Ok(snapshot) => snapshot,
                    Err(_) => {
                        return Err(Failure::BadUri);
                    },
                };
                let r = match State::load(
                    &snapshot,
                    check,
                    cycle,
                    processes,
                    own_pid,
                    exeprefix,
                    memstat,
                ) {
                    Ok(state) => Ok((state, check)),
                    Err(e) => Err(e),
                };
                assert(rows.spec_snapshot(snapshot));
                r
            },
        }
    }

    /// Whether `snapshot` is what the rows hold: row by row the same, with
    /// the path that every URI names.
    pub open spec fn spec_snapshot(&self, snapshot: Snapshot) -> bool {
        &&& snapshot.time == (match self.state {
            Some(row) => Some(row.time),
            None => None,
        })
        &&& snapshot.maps@.len() == self.maps@.len()
        &&& forall|i: int|
            0 <= i < self.maps@.len() ==> (#[trigger] snapshot.maps@[i]) == Region::spec_from_row(
                self.maps@[i],
                snapshot.maps@[i].path,
            ) && Some(snapshot.maps@[i].path@) == crate::database::uri_file(self.maps@[i].uri@)
        &&& snapshot.bad_exes@.len() == self.badexes@.len()
        &&& forall|i: int|
            0 <= i < self.badexes@.len() ==> (#[trigger] snapshot.bad_exes@[i]).size
                == self.badexes@[i].update_time as u64 && Some(snapshot.bad_exes@[i].path@)
                == crate::database::uri_file(self.badexes@[i].uri@)
        &&& snapshot.exes@.len() == self.exes@.len()
        &&& forall|i: int|
            0 <= i < self.exes@.len() ==> (#[trigger] snapshot.exes@[i]) == Exe::spec_from_row(
                self.exes@[i],
                snapshot.exes@[i].path,
            ) && Some(snapshot.exes@[i].path@) == crate::database::uri_file(self.exes@[i].uri@)
        &&& snapshot.exemaps@ == self.exemaps@
        &&& snapshot.markovs@ == Seq::new(
            self.markovs@.len(),
            |i: int| MarkovRecord::spec_from_row(self.markovs@[i]),
        )
    }

    /// Every URI of the rows names a file path.
    pub open spec fn uris_name_files(&self) -> bool {
        &&& forall|i: int|
            0 <= i < self.maps@.len() ==> crate::database::uri_file(
                (#[trigger] self.maps@[i]).uri@,
            ) is Some
        &&& forall|i: int|
            0 <= i < self.badexes@.len() ==> crate::database::uri_file(
                (#[trigger] self.badexes@[i]).uri@,
            ) is Some
        &&& forall|i: int|
            0 <= i < self.exes@.len() ==> crate::database::uri_file(
                (#[trigger] self.exes@[i]).uri@,
            ) is Some
    }

    /// What the rows hold, with paths in place of URIs.
    ///
    /// Fails with [`Failure::BadUri`] where a URI names no file path.
    pub fn to_snapshot(self) -> (r: Result<Snapshot, Failure>)
        ensures
            r is Ok <==> self.uris_name_files(),
            r is Ok ==> self.spec_snapshot(r->Ok_0),
            r is Err ==> r->Err_0 == Failure::BadUri,
    {
        let time = match &self.state {
            Some(row) => Some(row.time),
            None => None,
        };
        let mut maps: Vec<Region> = Vec::new();
        let mut i: usize = 0;
        while i < self.maps.len()
            invariant
                i <= self.maps@.len(),
                maps@.len() == i,
                forall|j: int|
                    0 <= j < i ==> (#[trigger] maps@[j]) == Region::spec_from_row(
                        self.maps@[j],
                        maps@[j].path,
                    ) && Some(maps@[j].path@) == crate::database::uri_file(self.maps@[j].uri@),
            decreases self.maps@.len() - i,
        {
            match Region::from_row(&self.maps[i]) {
                Ok(region) => {
                    maps.push(region);
                },
                Err(_) => {
                    assert(crate::database::uri_file(self.maps@[i as int].uri@) is None);
                    return Err(Failure::BadUri);
                },
            }
            i = i + 1;
        }
        let mut bad_exes: Vec<BadExe> = Vec::new();
        let mut i: usize = 0;
        while i < self.badexes.len()
            invariant
                i <= self.badexes@.len(),
                bad_exes@.len() == i,
                forall|j: int|
                    0 <= j < i ==> (#[trigger] bad_exes@[j]).size
                        == self.badexes@[j].update_time as u64 && Some(bad_exes@[j].path@)
                        == crate::database::uri_file(self.badexes@[j].uri@),
            decreases self.badexes@.len() - i,
        {
            match BadExe::from_row(&self.badexes[i]) {
                Ok(entry) => {
                    bad_exes.push(entry);
                },
                Err(_) => {
                    assert(crate::database::uri_file(self.badexes@[i as int].uri@) is None);
                    return Err(Failure::BadUri);
                },
            }
            i = i + 1;
        }
        let mut exes: Vec<Exe> = Vec::new();
        let mut i: usize = 0;
        while i < self.exes.len()
            invariant
                i <= self.exes@.len(),
                exes@.len() == i,
                forall|j: int|
                    0 <= j < i ==> (#[trigger] exes@[j]) == Exe::spec_from_row(
                        self.exes@[j],
                        exes@[j].path,
                    ) && Some(exes@[j].path@) == crate::database::uri_file(self.exes@[j].uri@),
            decreases self.exes@.len() - i,
        {
            match Exe::from_row(&self.exes[i]) {
                Ok(exe) => {
                    exes.push(exe);
                },
                Err(_) => {
                    assert(crate::database::uri_file(self.exes@[i as int].uri@) is None);
                    return Err(Failure::BadUri);
                },
            }
            i = i + 1;
        }
        proof {
            assert forall|i: int| 0 <= i < self.maps@.len() implies crate::database::uri_file(
                (#[trigger] self.maps@[i]).uri@,
            ) is Some by {
                assert(Some(maps@[i].path@) == crate::database::uri_file(self.maps@[i].uri@));
            }
            assert forall|i: int| 0 <= i < self.badexes@.len() implies crate::database::uri_file(
                (#[trigger] self.badexes@[i]).uri@,
            ) is Some by {
                assert(Some(bad_exes@[i].path@) == crate::database::uri_file(
                    self.badexes@[i].uri@,
                ));
            }
            assert forall|i: int| 0 <= i < self.exes@.len() implies crate::database::uri_file(
                (#[trigger] self.exes@[i]).uri@,
            ) is Some by {
                assert(Some(exes@[i].path@) == crate::database::uri_file(self.exes@[i].uri@));
            }
        }
        let mut markovs: Vec<MarkovRecord> = Vec::new();
        let mut i: usize = 0;
        while i < self.markovs.len()
            invariant
                i <= self.markovs@.len(),
                markovs@ == Seq::new(
                    i as nat,
                    |j: int| MarkovRecord::spec_from_row(self.markovs@[j]),
                ),
            decreases self.markovs@.len() - i,
        {
            markovs.push(MarkovRecord::from_row(&self.markovs[i]));
            assert(markovs@ =~= Seq::new(
                (i + 1) as nat,
                |j: int| MarkovRecord::spec_from_row(self.markovs@[j]),
            ));
            i = i + 1;
        }
        Ok(Snapshot { time, maps, bad_exes, exes, exemaps: self.exemaps, markovs })
    }
}

} // verus!
