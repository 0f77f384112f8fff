//! The entity graph: executables, the file regions they map, the Markov
//! chains between them, and the registries that own them all.
//!
//! Entities live in vectors and refer to each other by position. A region
//! and an executable keep the sequence number they were registered with for
//! as long as they live.

use crate::common::{capped_add, capped_sum, Failure};
use crate::markov::{Chain, Clock, DwellUpdate, Endpoint};
use crate::proc::MemInfo;
use vstd::prelude::*;

verus! {

/// A contiguous part of a file that processes map into memory, identified by
/// the file's path, the offset and the length.
#[derive(Debug)]
pub struct Region {
    /// Absolute path of the mapped file.
    pub path: String,
    /// Offset in bytes.
    pub offset: u64,
    /// Length in bytes.
    pub length: u64,
    /// Last time it was probed.
    pub update_time: i32,
    /// Sequence number, assigned at registration.
    pub seq: i32,
    /// Place of the region on disk by which read-ahead is ordered, or -1
    /// while it is not known.
    pub block: i64,
}

/// An application, identified by the path of its executable.
#[derive(Debug)]
pub struct Exe {
    /// Absolute path of the executable.
    pub path: String,
    /// Total running time.
    pub time: i32,
    /// Last time it was probed.
    pub update_time: i32,
    /// Sum of the lengths of the regions it maps.
    pub size: u64,
    /// Last scan in which it was seen running.
    pub running_timestamp: i32,
    /// Time at which it last started or stopped running.
    pub change_timestamp: i32,
    /// Sequence number, assigned at registration.
    pub seq: i32,
}

/// The use of a region by an executable.
#[derive(Clone, Copy, Debug, PartialEq, Eq)]
pub struct ExeMap {
    /// Index of the executable.
    pub exe: usize,
    /// Index of the region.
    pub map: usize,
    /// Probability that the region is used while the executable runs, as
    /// the bit pattern of a double.
    pub prob: u64,
}

/// An executable that is too small to be tracked.
#[derive(Debug)]
pub struct BadExe {
    /// Absolute path of the executable.
    pub path: String,
    /// Sum of the lengths of its mappings when it was seen.
    pub size: u64,
}

/// An executable seen running for the first time.
#[derive(Debug)]
pub struct NewExe {
    /// Absolute path of the executable.
    pub path: String,
    /// A process that runs it.
    pub pid: i32,
}

impl Clone for Region {
    fn clone(&self) -> (r: Self)
        ensures
            r == *self,
    {
        Region {
            path: self.path.clone(),
            offset: self.offset,
            length: self.length,
            update_time: self.update_time,
            seq: self.seq,
            block: self.block,
        }
    }
}

impl Clone for Exe {
    fn clone(&self) -> (r: Self)
        ensures
            r == *self,
    {
        Exe {
            path: self.path.clone(),
            time: self.time,
            update_time: self.update_time,
            size: self.size,
            running_timestamp: self.running_timestamp,
            change_timestamp: self.change_timestamp,
            seq: self.seq,
        }
    }
}

impl Clone for BadExe {
    fn clone(&self) -> (r: Self)
        ensures
            r == *self,
    {
        BadExe { path: self.path.clone(), size: self.size }
    }
}

impl Clone for NewExe {
    fn clone(&self) -> (r: Self)
        ensures
            r == *self,
    {
        NewExe { path: self.path.clone(), pid: self.pid }
    }
}

/// The figures of a model that a dump of the log shows.
#[derive(Clone, Copy, Debug, PartialEq, Eq)]
pub struct Stats {
    /// Logical time.
    pub time: i32,
    /// Number of known applications.
    pub exes: usize,
    /// Number of applications that are too small to be tracked.
    pub bad_exes: usize,
    /// Number of registered regions.
    pub maps: usize,
    /// Number of running applications.
    pub running_exes: usize,
}

/// The bit pattern of the double 1.0.
pub const PROB_ONE: u64 = 0x3ff0_0000_0000_0000;

/// The whole model but for the configuration.
pub struct State {
    /// Total seconds of observation, from the beginning of the persistent
    /// state.
    pub time: i32,
    /// Known applications.
    pub exes: Vec<Exe>,
    /// Applications that are too small to be tracked.
    pub bad_exes: Vec<BadExe>,
    /// Regions used by known applications.
    pub maps: Vec<Region>,
    /// Which application uses which region.
    pub exemaps: Vec<ExeMap>,
    /// One chain for a pair of applications.
    pub chains: Vec<Chain>,
    /// Applications seen running in the last scan.
    pub running_exes: Vec<usize>,
    /// Last sequence number given to a region.
    pub map_seq: i32,
    /// Last sequence number given to an application.
    pub exe_seq: i32,
    /// Time of the last scan for running processes.
    pub last_running_timestamp: i32,
    /// Time of the last accounting of running times.
    pub last_accounting_timestamp: i32,
    /// Whether a scan has been made since the last save.
    pub dirty: bool,
    /// Whether a scan has been made that the model has not taken in yet.
    pub model_dirty: bool,
    /// Memory statistics.
    pub memstat: MemInfo,
    /// Time of the last update of the memory statistics.
    pub memstat_timestamp: i32,
    /// Applications that started or stopped running in the last scan.
    pub state_changed_exes: Vec<usize>,
    /// Applications found running by the scan in progress.
    pub new_running_exes: Vec<usize>,
    /// Executables seen for the first time.
    pub new_exes: Vec<NewExe>,
}

/// A [`State`] as mathematics sees it.
pub struct StateView {
    pub time: i32,
    pub exes: Seq<Exe>,
    pub bad_exes: Seq<BadExe>,
    pub maps: Seq<Region>,
    pub exemaps: Seq<ExeMap>,
    pub chains: Seq<Chain>,
    pub running_exes: Seq<usize>,
    pub map_seq: i32,
    pub exe_seq: i32,
    pub last_running_timestamp: i32,
    pub last_accounting_timestamp: i32,
    pub dirty: bool,
    pub model_dirty: bool,
    pub memstat: MemInfo,
    pub memstat_timestamp: i32,
    pub state_changed_exes: Seq<usize>,
    pub new_running_exes: Seq<usize>,
    pub new_exes: Seq<NewExe>,
}

impl View for State {
    type V = StateView;

    open spec fn view(&self) -> StateView {
        StateView {
            time: self.time,
            exes: self.exes@,
            bad_exes: self.bad_exes@,
            maps: self.maps@,
            exemaps: self.exemaps@,
            chains: self.chains@,
            running_exes: self.running_exes@,
            map_seq: self.map_seq,
            exe_seq: self.exe_seq,
            last_running_timestamp: self.last_running_timestamp,
            last_accounting_timestamp: self.last_accounting_timestamp,
            dirty: self.dirty,
            model_dirty: self.model_dirty,
            memstat: self.memstat,
            memstat_timestamp: self.memstat_timestamp,
            state_changed_exes: self.state_changed_exes@,
            new_running_exes: self.new_running_exes@,
            new_exes: self.new_exes@,
        }
    }
}

impl Region {
    /// Two regions are the same region where path, offset and length agree.
    pub open spec fn same_key(&self, other: &Region) -> bool {
        self.path@ == other.path@ && self.offset == other.offset && self.length == other.length
    }

    /// A region that has not been registered or probed.
    pub open spec fn spec_new(path: String, offset: u64, length: u64) -> Region {
        Region { path, offset, length, update_time: 0, seq: 0, block: -1i64 }
    }

    /// A region that has not been registered or probed.
    pub fn new(path: String, offset: u64, length: u64) -> (r: Region)
        ensures
            r == Self::spec_new(path, offset, length),
    {
        Region { path, offset, length, update_time: 0, seq: 0, block: -1 }
    }

    /// The length of the region in bytes.
    pub fn get_size(&self) -> (r: u64)
        ensures
            r == self.length,
    {
        self.length
    }

    /// Whether `other` is the same region.
    pub fn is_same(&self, other: &Region) -> (r: bool)
        ensures
            r == self.same_key(other),
    {
        self.offset == other.offset && self.length == other.length && self.path == other.path
    }
}

impl Exe {
    /// Whether the executable was seen by the last scan.
    pub open spec fn spec_is_running(&self, clock: Clock) -> bool {
        self.running_timestamp >= clock.last_running_timestamp
    }

    /// What a chain reads of this executable.
    pub open spec fn spec_endpoint(&self, clock: Clock) -> Endpoint {
        Endpoint { running: self.spec_is_running(clock), change_timestamp: self.change_timestamp }
    }

    /// An executable that has not been registered. One that is running was
    /// last seen and probed by the last scan; one that is not has never been.
    /// Either way it changed its state now.
    pub open spec fn spec_new(path: String, is_running: bool, size: u64, clock: Clock) -> Exe {
        Exe {
            path,
            time: 0,
            update_time: if is_running {
                clock.last_running_timestamp
            } else {
                -1i32
            },
            size,
            running_timestamp: if is_running {
                clock.last_running_timestamp
            } else {
                -1i32
            },
            change_timestamp: clock.time,
            seq: 0,
        }
    }

    /// Makes an executable that has not been registered.
    pub fn new(path: String, is_running: bool, size: u64, clock: &Clock) -> (e: Exe)
        ensures
            e == Self::spec_new(path, is_running, size, *clock),
    {
        let seen = if is_running {
            clock.last_running_timestamp
        } else {
            -1
        };
        Exe {
            path,
            time: 0,
            update_time: seen,
            size,
            running_timestamp: seen,
            change_timestamp: clock.time,
            seq: 0,
        }
    }

    /// Whether the executable was seen by the last scan.
    pub fn is_running(&self, clock: &Clock) -> (r: bool)
        ensures
            r == self.spec_is_running(*clock),
    {
        self.running_timestamp >= clock.last_running_timestamp
    }

    /// What a chain reads of this executable.
    pub fn endpoint(&self, clock: &Clock) -> (e: Endpoint)
        ensures
            e == self.spec_endpoint(*clock),
    {
        Endpoint { running: self.is_running(clock), change_timestamp: self.change_timestamp }
    }

    /// Adds `period` seconds to the running time, if the executable is
    /// running.
    pub fn running_inc_time(&mut self, period: i32, clock: &Clock)
        requires
            old(self).spec_is_running(*clock) ==> i32::MIN <= old(self).time + period <= i32::MAX,
        ensures
            *final(self) == (Exe {
                time: if old(self).spec_is_running(*clock) {
                    (old(self).time + period) as i32
                } else {
                    old(self).time
                },
                ..*old(self)
            }),
    {
        if self.is_running(clock) {
            self.time = self.time + period;
        }
    }
}

/// Whether two chains are for the same pair of executables, in either order.
pub open spec fn same_pair(c: Chain, d: Chain) -> bool {
    (c.a == d.a && c.b == d.b) || (c.a == d.b && c.b == d.a)
}

/// Whether a chain is for the executables `x` and `y`, in either order.
pub open spec fn links(c: Chain, x: int, y: int) -> bool {
    (c.a == x && c.b == y) || (c.a == y && c.b == x)
}

impl StateView {
    /// The clock of the model.
    pub open spec fn clock(self) -> Clock {
        Clock { time: self.time, last_running_timestamp: self.last_running_timestamp }
    }

    /// Executables stand in the order of their sequence numbers, none of
    /// which is beyond the last one given, and no path occurs twice.
    pub open spec fn exes_wf(self) -> bool {
        &&& 0 <= self.exe_seq
        &&& forall|i: int|
            0 <= i < self.exes.len() ==> 1 <= (#[trigger] self.exes[i]).seq <= self.exe_seq
        &&& forall|i: int, j: int|
            0 <= i < j < self.exes.len() ==> (#[trigger] self.exes[i]).seq < (
            #[trigger] self.exes[j]).seq
        &&& forall|i: int, j: int|
            0 <= i < j < self.exes.len() ==> (#[trigger] self.exes[i]).path@ != (
            #[trigger] self.exes[j]).path@
    }

    /// The sequence number of an executable is greater than its position:
    /// there are no more executables than sequence numbers have been given.
    pub proof fn lemma_exes_count(self, i: int)
        requires
            self.exes_wf(),
            0 <= i < self.exes.len(),
        ensures
            self.exes[i].seq > i,
            self.exes.len() <= self.exe_seq,
            self.exes.len() <= i32::MAX,
    {
        self.lemma_seq_above(i);
        self.lemma_seq_above(self.exes.len() - 1);
        assert(self.exes[self.exes.len() - 1].seq <= self.exe_seq);
    }

    /// The sequence number of an executable is greater than its position.
    proof fn lemma_seq_above(self, i: int)
        requires
            self.exes_wf(),
            0 <= i < self.exes.len(),
        ensures
            self.exes[i].seq > i,
        decreases i,
    {
        if i > 0 {
            self.lemma_seq_above(i - 1);
            assert(self.exes[i - 1].seq < self.exes[i].seq);
        } else {
            assert(1 <= self.exes[0].seq);
        }
    }

    /// The sequence number of a region is greater than its position: there
    /// are no more regions than sequence numbers have been given.
    pub proof fn lemma_maps_count(self, i: int)
        requires
            self.maps_wf(),
            0 <= i < self.maps.len(),
        ensures
            self.maps[i].seq > i,
            self.maps.len() <= self.map_seq,
            self.maps.len() <= i32::MAX,
    {
        self.lemma_map_seq_above(i);
        self.lemma_map_seq_above(self.maps.len() - 1);
        assert(self.maps[self.maps.len() - 1].seq <= self.map_seq);
    }

    /// The sequence number of a region is greater than its position.
    proof fn lemma_map_seq_above(self, i: int)
        requires
            self.maps_wf(),
            0 <= i < self.maps.len(),
        ensures
            self.maps[i].seq > i,
        decreases i,
    {
        if i > 0 {
            self.lemma_map_seq_above(i - 1);
            assert(self.maps[i - 1].seq < self.maps[i].seq);
        } else {
            assert(1 <= self.maps[0].seq);
        }
    }

    /// Executables that keep their paths and sequence numbers keep what
    /// the invariant asks of them.
    pub proof fn lemma_exes_keep(self, post: StateView)
        requires
            self.exes_wf(),
            post.exe_seq == self.exe_seq,
            post.exes.len() == self.exes.len(),
            forall|i: int|
                0 <= i < self.exes.len() ==> (#[trigger] post.exes[i]).seq == self.exes[i].seq
                    && post.exes[i].path@ == self.exes[i].path@,
        ensures
            post.exes_wf(),
    {
        assert forall|i: int| 0 <= i < post.exes.len() implies 1 <= (#[trigger] post.exes[i]).seq
            <= post.exe_seq by {
            assert(1 <= self.exes[i].seq <= self.exe_seq);
        }
        assert forall|i: int, j: int| 0 <= i < j < post.exes.len() implies (
        #[trigger] post.exes[i]).seq < (#[trigger] post.exes[j]).seq by {
            assert(self.exes[i].seq < self.exes[j].seq);
            assert(post.exes[i].seq == self.exes[i].seq);
            assert(post.exes[j].seq == self.exes[j].seq);
        }
        assert forall|i: int, j: int| 0 <= i < j < post.exes.len() implies (
        #[trigger] post.exes[i]).path@ != (#[trigger] post.exes[j]).path@ by {
            assert(self.exes[i].path@ != self.exes[j].path@);
            assert(post.exes[i].path@ == self.exes[i].path@);
            assert(post.exes[j].path@ == self.exes[j].path@);
        }
    }

    /// Regions stand in the order of their sequence numbers, none of which
    /// is beyond the last one given, and no region occurs twice.
    pub open spec fn maps_wf(self) -> bool {
        &&& 0 <= self.map_seq
        &&& forall|i: int|
            0 <= i < self.maps.len() ==> 1 <= (#[trigger] self.maps[i]).seq <= self.map_seq
        &&& forall|i: int, j: int|
            0 <= i < j < self.maps.len() ==> (#[trigger] self.maps[i]).seq < (
            #[trigger] self.maps[j]).seq
        &&& forall|i: int, j: int|
            0 <= i < j < self.maps.len() ==> !#[trigger] self.maps[i].same_key(&self.maps[j])
    }

    /// Every use of a region names a known executable and a registered
    /// region, and no use occurs twice.
    pub open spec fn exemaps_wf(self) -> bool {
        &&& forall|k: int|
            0 <= k < self.exemaps.len() ==> (#[trigger] self.exemaps[k]).exe < self.exes.len()
                && self.exemaps[k].map < self.maps.len()
        &&& forall|k: int, l: int|
            0 <= k < l < self.exemaps.len() ==> !((#[trigger] self.exemaps[k]).exe == (
            #[trigger] self.exemaps[l]).exe && self.exemaps[k].map == self.exemaps[l].map)
    }

    /// Every chain is well formed and joins two different known
    /// executables, and no pair has two chains.
    pub open spec fn chains_wf(self) -> bool {
        &&& forall|k: int|
            0 <= k < self.chains.len() ==> {
                &&& (#[trigger] self.chains[k]).wf()
                &&& self.chains[k].a < self.exes.len()
                &&& self.chains[k].b < self.exes.len()
                &&& self.chains[k].a != self.chains[k].b
            }
        &&& forall|k: int, l: int|
            0 <= k < l < self.chains.len() ==> !same_pair(
                #[trigger] self.chains[k],
                #[trigger] self.chains[l],
            )
    }

    /// The lists of running and changed executables name known executables.
    pub open spec fn lists_wf(self) -> bool {
        &&& forall|k: int|
            0 <= k < self.running_exes.len() ==> #[trigger] self.running_exes[k] < self.exes.len()
        &&& forall|k: int|
            0 <= k < self.state_changed_exes.len() ==> #[trigger] self.state_changed_exes[k]
                < self.exes.len()
        &&& forall|k: int|
            0 <= k < self.new_running_exes.len() ==> #[trigger] self.new_running_exes[k]
                < self.exes.len()
    }

    /// No path occurs twice among the executables that are too small, nor
    /// among those seen for the first time.
    pub open spec fn paths_wf(self) -> bool {
        &&& forall|i: int, j: int|
            0 <= i < j < self.bad_exes.len() ==> (#[trigger] self.bad_exes[i]).path@ != (
            #[trigger] self.bad_exes[j]).path@
        &&& forall|i: int, j: int|
            0 <= i < j < self.new_exes.len() ==> (#[trigger] self.new_exes[i]).path@ != (
            #[trigger] self.new_exes[j]).path@
    }

    /// The invariant of the model.
    pub open spec fn wf(self) -> bool {
        &&& self.exes_wf()
        &&& self.maps_wf()
        &&& self.exemaps_wf()
        &&& self.chains_wf()
        &&& self.lists_wf()
        &&& self.paths_wf()
    }

    /// The invariant carries over to a model of which every part either is
    /// shown to be well formed or holds the same as this model in all that the
    /// part speaks of.
    pub proof fn lemma_wf_frame(self, post: StateView)
        requires
            self.wf(),
            post.exes_wf() || (post.exes == self.exes && post.exe_seq == self.exe_seq),
            post.maps_wf() || (post.maps == self.maps && post.map_seq == self.map_seq),
            post.exemaps_wf() || (post.exemaps == self.exemaps && post.exes.len()
                == self.exes.len() && post.maps.len() == self.maps.len()),
            post.chains_wf() || (post.chains == self.chains && post.exes.len() == self.exes.len()),
            post.lists_wf() || (post.running_exes == self.running_exes && post.state_changed_exes
                == self.state_changed_exes && post.new_running_exes == self.new_running_exes
                && post.exes.len() == self.exes.len()),
            post.paths_wf() || (post.bad_exes == self.bad_exes && post.new_exes == self.new_exes),
        ensures
            post.wf(),
    {
        assert(post.exes_wf());
        assert(post.maps_wf());
        assert(post.exemaps_wf()) by {
            if !post.exemaps_wf() {
                assert forall|k: int| 0 <= k < post.exemaps.len() implies (
                #[trigger] post.exemaps[k]).exe < post.exes.len() && post.exemaps[k].map
                    < post.maps.len() by {
                    assert(self.exemaps[k].exe < self.exes.len());
                }
            }
        }
        assert(post.chains_wf());
        assert(post.lists_wf());
        assert(post.paths_wf());
    }

    /// Whether there is a chain for the executables `x` and `y`.
    pub open spec fn linked(self, x: int, y: int) -> bool {
        exists|k: int| 0 <= k < self.chains.len() && #[trigger] links(self.chains[k], x, y)
    }

    /// Every pair of known executables has a chain.
    pub open spec fn pairs_complete(self) -> bool {
        forall|x: int, y: int| 0 <= x < y < self.exes.len() ==> #[trigger] self.linked(x, y)
    }

    /// The seconds that have passed since running times were last brought up
    /// to date.
    pub open spec fn period(self) -> int {
        self.time - self.last_accounting_timestamp
    }

    /// The model can take in changes and bring running times up to date
    /// within the limits of its counters: the period and every running time
    /// with the period added fit 32 bits, and every chain has room in its
    /// counts or has entered its state at the present time or later.
    pub open spec fn ready(self) -> bool {
        &&& i32::MIN <= self.period() <= i32::MAX
        &&& forall|i: int|
            0 <= i < self.exes.len() ==> i32::MIN <= (#[trigger] self.exes[i]).time + self.period()
                <= i32::MAX
        &&& forall|k: int|
            0 <= k < self.chains.len() ==> {
                &&& i32::MIN <= (#[trigger] self.chains[k]).time + self.period() <= i32::MAX
                &&& (self.chains[k].has_room() || self.chains[k].change_timestamp >= self.time)
            }
    }

    /// What [`StateView::ready`] says depends on the clock, the chains and
    /// the running times only.
    pub proof fn lemma_ready_kept(self, post: StateView)
        requires
            self.ready(),
            post.time == self.time,
            post.last_accounting_timestamp == self.last_accounting_timestamp,
            post.chains == self.chains,
            post.exes.len() == self.exes.len(),
            forall|i: int|
                0 <= i < self.exes.len() ==> (#[trigger] post.exes[i]).time == self.exes[i].time,
        ensures
            post.ready(),
    {
        assert forall|i: int| 0 <= i < post.exes.len() implies i32::MIN <= (
        #[trigger] post.exes[i]).time + post.period() <= i32::MAX by {
            assert(i32::MIN <= self.exes[i].time + self.period() <= i32::MAX);
        }
    }

    /// The position of the region that is the same as `region`, if it is
    /// registered.
    pub open spec fn find_map(self, region: Region) -> Option<int> {
        if exists|i: int| 0 <= i < self.maps.len() && (#[trigger] self.maps[i]).same_key(&region) {
            Some(
                choose|i: int| 0 <= i < self.maps.len() && (#[trigger] self.maps[i]).same_key(&region),
            )
        } else {
            None
        }
    }

    /// The position of the executable with the given path, if it is known.
    pub open spec fn find_exe(self, path: Seq<char>) -> Option<int> {
        if exists|i: int| 0 <= i < self.exes.len() && (#[trigger] self.exes[i]).path@ == path {
            Some(choose|i: int| 0 <= i < self.exes.len() && (#[trigger] self.exes[i]).path@ == path)
        } else {
            None
        }
    }
}

impl StateView {
    /// Whether the same region as `region` is registered.
    pub open spec fn has_map(self, region: Region) -> bool {
        exists|i: int| 0 <= i < self.maps.len() && (#[trigger] self.maps[i]).same_key(&region)
    }

    /// Whether an executable with the given path is known.
    pub open spec fn has_exe(self, path: Seq<char>) -> bool {
        exists|i: int| 0 <= i < self.exes.len() && (#[trigger] self.exes[i]).path@ == path
    }

    /// Whether executable `exe` is recorded as using region `map`.
    pub open spec fn has_exemap(self, exe: int, map: int) -> bool {
        exists|k: int|
            0 <= k < self.exemaps.len() && (#[trigger] self.exemaps[k]).exe == exe
                && self.exemaps[k].map == map
    }

    /// Whether any executable is recorded as using the same region as
    /// `region`.
    pub open spec fn map_in_use(self, region: Region) -> bool {
        exists|k: int|
            0 <= k < self.exemaps.len() && 0 <= (#[trigger] self.exemaps[k]).map < self.maps.len()
                && self.maps[self.exemaps[k].map as int].same_key(&region)
    }

    /// The model after `region` was registered under the next sequence
    /// number.
    pub open spec fn spec_register_map(self, region: Region) -> StateView {
        StateView {
            map_seq: (self.map_seq + 1) as i32,
            maps: self.maps.push(Region { seq: (self.map_seq + 1) as i32, ..region }),
            ..self
        }
    }

    /// Registering a new region keeps the invariant; the region gets a
    /// sequence number greater than all given before, and is the only one
    /// with that number.
    pub proof fn lemma_register_map(self, region: Region)
        requires
            self.wf(),
            !self.has_map(region),
            self.map_seq < i32::MAX,
        ensures
            self.spec_register_map(region).wf(),
            forall|i: int| 0 <= i < self.maps.len() ==> (#[trigger] self.maps[i]).seq <= self.map_seq,
            forall|i: int|
                0 <= i < self.spec_register_map(region).maps.len() ==> ((
                #[trigger] self.spec_register_map(region).maps[i]).seq == self.map_seq + 1 <==> i
                    == self.maps.len()),
    {
        let post = self.spec_register_map(region);
        assert forall|i: int, j: int| 0 <= i < j < post.maps.len() implies (
        #[trigger] post.maps[i]).seq < (#[trigger] post.maps[j]).seq by {
            assert(post.maps[i] == self.maps[i]);
            if j < self.maps.len() {
                assert(post.maps[j] == self.maps[j]);
            }
        }
        assert forall|i: int, j: int| 0 <= i < j < post.maps.len() implies !#[trigger] post.maps[i].same_key(
            &post.maps[j],
        ) by {
            assert(post.maps[i] == self.maps[i]);
            if j < self.maps.len() {
                assert(post.maps[j] == self.maps[j]);
                assert(!self.maps[i].same_key(&self.maps[j]));
            } else {
                assert(!self.maps[i].same_key(&region));
            }
        }
        assert forall|i: int| 0 <= i < post.maps.len() implies 1 <= (#[trigger] post.maps[i]).seq
            <= post.map_seq by {
            if i < self.maps.len() {
                assert(post.maps[i] == self.maps[i]);
            }
        }
        assert forall|k: int| 0 <= k < post.exemaps.len() implies (#[trigger] post.exemaps[k]).exe
            < post.exes.len() && post.exemaps[k].map < post.maps.len() by {
            assert(self.exemaps[k].map < self.maps.len());
        }
        self.lemma_wf_frame(post);
        assert forall|i: int| 0 <= i < post.maps.len() implies ((#[trigger] post.maps[i]).seq
            == self.map_seq + 1 <==> i == self.maps.len()) by {
            if i < self.maps.len() {
                assert(post.maps[i] == self.maps[i]);
            }
        }
    }

    /// Registering a region leaves every region that was registered as it
    /// was, under its own number, and adds the one region.
    pub proof fn lemma_register_map_adds_one(self, region: Region)
        requires
            self.wf(),
            !self.has_map(region),
            self.map_seq < i32::MAX,
        ensures
            self.spec_register_map(region).maps.len() == self.maps.len() + 1,
            self.spec_register_map(region).maps.subrange(0, self.maps.len() as int) == self.maps,
            self.spec_register_map(region).maps[self.maps.len() as int].same_key(&region),
            self.spec_register_map(region).maps[self.maps.len() as int].seq == self.map_seq + 1,
            self.spec_register_map(region).has_map(region),
    {
        let post = self.spec_register_map(region);
        assert(post.maps.subrange(0, self.maps.len() as int) =~= self.maps);
        assert(post.maps[self.maps.len() as int].same_key(&region));
    }

    /// Sequence numbers are never given twice: of two regions registered one
    /// after the other, the second gets the greater number, and both numbers
    /// are above all that were given before.
    pub proof fn lemma_register_map_twice(self, first: Region, second: Region)
        requires
            self.wf(),
            !self.has_map(first),
            !first.same_key(&second),
            !self.has_map(second),
            self.map_seq + 2 <= i32::MAX,
        ensures
            self.spec_register_map(first).wf(),
            !self.spec_register_map(first).has_map(second),
            self.spec_register_map(first).spec_register_map(second).wf(),
            self.spec_register_map(first).map_seq == self.map_seq + 1,
            self.spec_register_map(first).spec_register_map(second).map_seq == self.map_seq + 2,
            forall|i: int| 0 <= i < self.maps.len() ==> (#[trigger] self.maps[i]).seq <= self.map_seq,
    {
        self.lemma_register_map(first);
        let mid = self.spec_register_map(first);
        assert(!mid.has_map(second)) by {
            if mid.has_map(second) {
                let i = choose|i: int|
                    0 <= i < mid.maps.len() && (#[trigger] mid.maps[i]).same_key(&second);
                if i < self.maps.len() {
                    assert(mid.maps[i] == self.maps[i]);
                    assert(self.maps[i].same_key(&second));
                } else {
                    assert(mid.maps[i].same_key(&first));
                }
            }
        }
        mid.lemma_register_map(second);
    }

    /// Removing a region that nothing uses keeps the invariant.
    pub proof fn lemma_unregister_map(self, i: int)
        requires
            self.wf(),
            0 <= i < self.maps.len(),
            !self.map_in_use(self.maps[i]),
        ensures
            self.spec_unregister_map(i).wf(),
    {
        let post = self.spec_unregister_map(i);
        assert forall|k: int| 0 <= k < self.exemaps.len() implies (#[trigger] self.exemaps[k]).map
            != i by {
            if self.exemaps[k].map == i {
                assert(self.maps[self.exemaps[k].map as int].same_key(&self.maps[i]));
                assert(self.map_in_use(self.maps[i]));
            }
        }
        assert forall|x: int| 0 <= x < post.maps.len() implies #[trigger] post.maps[x] == self.maps[if x
            < i {
            x
        } else {
            x + 1
        }] by {}
        assert forall|x: int, y: int| 0 <= x < y < post.maps.len() implies (
        #[trigger] post.maps[x]).seq < (#[trigger] post.maps[y]).seq by {
            let x0 = if x < i { x } else { x + 1 };
            let y0 = if y < i { y } else { y + 1 };
            assert(self.maps[x0].seq < self.maps[y0].seq);
        }
        assert forall|x: int, y: int| 0 <= x < y < post.maps.len() implies !#[trigger] post.maps[x].same_key(
            &post.maps[y],
        ) by {
            let x0 = if x < i { x } else { x + 1 };
            let y0 = if y < i { y } else { y + 1 };
            assert(!self.maps[x0].same_key(&self.maps[y0]));
        }
        assert forall|x: int| 0 <= x < post.maps.len() implies 1 <= (#[trigger] post.maps[x]).seq
            <= post.map_seq by {
            let x0 = if x < i { x } else { x + 1 };
            assert(1 <= self.maps[x0].seq <= self.map_seq);
        }
        assert forall|k: int| 0 <= k < post.exemaps.len() implies (#[trigger] post.exemaps[k]).exe
            < post.exes.len() && post.exemaps[k].map < post.maps.len() by {
            assert(self.exemaps[k].map != i);
            assert(self.exemaps[k].map < self.maps.len());
        }
        assert forall|k: int, l: int| 0 <= k < l < post.exemaps.len() implies !((
        #[trigger] post.exemaps[k]).exe == (#[trigger] post.exemaps[l]).exe && post.exemaps[k].map
            == post.exemaps[l].map) by {
            assert(self.exemaps[k].map != i);
            assert(self.exemaps[l].map != i);
            assert(!(self.exemaps[k].exe == self.exemaps[l].exe && self.exemaps[k].map
                == self.exemaps[l].map));
        }
        self.lemma_wf_frame(post);
    }

    /// Registering an executable whose path is new keeps the invariant, and
    /// with its chains it keeps every pair of executables joined.
    pub proof fn lemma_register_exe(self, exe: Exe, create_markovs: bool, cycle: u32)
        requires
            self.wf(),
            !self.has_exe(exe.path@),
            self.exe_seq < i32::MAX,
        ensures
            self.spec_register_exe(exe, create_markovs, cycle).wf(),
            create_markovs && self.pairs_complete() ==> self.spec_register_exe(
                exe,
                create_markovs,
                cycle,
            ).pairs_complete(),
            self.ready() && exe.time == 0 ==> self.spec_register_exe(
                exe,
                create_markovs,
                cycle,
            ).ready(),
    {
        let post = self.spec_register_exe(exe, create_markovs, cycle);
        let n = self.exes.len() as int;
        let m = self.chains.len() as int;
        if n > 0 {
            self.lemma_exes_count(0);
        }
        if self.ready() && exe.time == 0 {
            assert forall|i: int| 0 <= i < post.exes.len() implies i32::MIN <= (
            #[trigger] post.exes[i]).time + post.period() <= i32::MAX by {
                if i < n {
                    assert(post.exes[i] == self.exes[i]);
                }
            }
            assert forall|k: int| 0 <= k < post.chains.len() implies {
                &&& i32::MIN <= (#[trigger] post.chains[k]).time + post.period() <= i32::MAX
                &&& (post.chains[k].has_room() || post.chains[k].change_timestamp >= post.time)
            } by {
                if k < m {
                    assert(post.chains[k] == self.chains[k]);
                } else {
                    let c = self.new_chains(exe, cycle)[k - m];
                    assert(post.chains[k] == c);
                    Chain::lemma_made_wf(
                        (k - m) as usize,
                        n as usize,
                        self.exes[k - m].spec_endpoint(self.clock()),
                        exe.spec_endpoint(self.clock()),
                        cycle,
                        true,
                        self.time,
                    );
                    assert forall|s: int| 0 <= s < 4 implies (#[trigger] c.weight[s][s])
                        < i32::MAX by {}
                }
            }
        }
        assert forall|i: int| 0 <= i < post.exes.len() implies 1 <= (#[trigger] post.exes[i]).seq
            <= post.exe_seq by {
            if i < n {
                assert(post.exes[i] == self.exes[i]);
            }
        }
        assert forall|i: int, j: int| 0 <= i < j < post.exes.len() implies (
        #[trigger] post.exes[i]).seq < (#[trigger] post.exes[j]).seq by {
            assert(post.exes[i] == self.exes[i]);
            if j < n {
                assert(post.exes[j] == self.exes[j]);
            }
        }
        assert forall|i: int, j: int| 0 <= i < j < post.exes.len() implies (
        #[trigger] post.exes[i]).path@ != (#[trigger] post.exes[j]).path@ by {
            assert(post.exes[i] == self.exes[i]);
            if j < n {
                assert(post.exes[j] == self.exes[j]);
            } else {
                assert(self.exes[i].path@ != exe.path@);
            }
        }
        assert(post.exes_wf());
        assert forall|k: int| 0 <= k < post.chains.len() implies {
            &&& (#[trigger] post.chains[k]).wf()
            &&& post.chains[k].a < post.exes.len()
            &&& post.chains[k].b < post.exes.len()
            &&& post.chains[k].a != post.chains[k].b
            &&& (k < m ==> post.chains[k] == self.chains[k])
            &&& (k >= m ==> post.chains[k].a == k - m && post.chains[k].b == n)
        } by {
            if k < m {
                assert(post.chains[k] == self.chains[k]);
                assert(self.chains[k].wf());
            } else {
                let c = self.new_chains(exe, cycle)[k - m];
                assert(post.chains[k] == c);
                Chain::lemma_made_wf(
                    (k - m) as usize,
                    n as usize,
                    self.exes[k - m].spec_endpoint(self.clock()),
                    exe.spec_endpoint(self.clock()),
                    cycle,
                    true,
                    self.time,
                );
            }
        }
        assert forall|k: int, l: int| 0 <= k < l < post.chains.len() implies !same_pair(
            #[trigger] post.chains[k],
            #[trigger] post.chains[l],
        ) by {
            if l < m {
                assert(!same_pair(self.chains[k], self.chains[l]));
            } else if k < m {
                assert(self.chains[k].a < n && self.chains[k].b < n);
            }
        }
        assert(post.chains_wf());
        assert(post.exemaps_wf()) by {
            assert forall|k: int| 0 <= k < post.exemaps.len() implies (
            #[trigger] post.exemaps[k]).exe < post.exes.len() && post.exemaps[k].map
                < post.maps.len() by {
                assert(self.exemaps[k].exe < self.exes.len());
            }
        }
        assert(post.lists_wf()) by {
            assert forall|k: int| 0 <= k < post.running_exes.len() implies #[trigger] post.running_exes[k]
                < post.exes.len() by {
                assert(self.running_exes[k] < self.exes.len());
            }
            assert forall|k: int| 0 <= k < post.state_changed_exes.len() implies #[trigger] post.state_changed_exes[k]
                < post.exes.len() by {
                assert(self.state_changed_exes[k] < self.exes.len());
            }
            assert forall|k: int| 0 <= k < post.new_running_exes.len() implies #[trigger] post.new_running_exes[k]
                < post.exes.len() by {
                assert(self.new_running_exes[k] < self.exes.len());
            }
        }
        assert(post.maps_wf());
        assert(post.paths_wf());
        if create_markovs && self.pairs_complete() {
            assert forall|x: int, y: int| 0 <= x < y < post.exes.len() implies #[trigger] post.linked(
                x,
                y,
            ) by {
                if y < n {
                    assert(self.linked(x, y));
                    let k = choose|k: int|
                        0 <= k < self.chains.len() && #[trigger] links(self.chains[k], x, y);
                    assert(post.chains[k] == self.chains[k]);
                    assert(links(post.chains[k], x, y));
                } else {
                    assert(post.chains[m + x].a == x && post.chains[m + x].b == n);
                    assert(links(post.chains[m + x], x, y));
                }
            }
        }
    }

    /// Recording a use of a registered region by a known executable keeps
    /// the invariant.
    pub proof fn lemma_add_exemap(self, exe: usize, map: usize, prob: u64)
        requires
            self.wf(),
            exe < self.exes.len(),
            map < self.maps.len(),
        ensures
            self.spec_add_exemap(exe, map, prob).wf(),
            self.spec_add_exemap(exe, map, prob).pairs_complete() == self.pairs_complete(),
    {
        let post = self.spec_add_exemap(exe, map, prob);
        if !self.has_exemap(exe as int, map as int) {
            assert forall|i: int| 0 <= i < self.exes.len() implies (#[trigger] post.exes[i]).seq
                == self.exes[i].seq && post.exes[i].path@ == self.exes[i].path@ by {}
            self.lemma_exes_keep(post);
            assert forall|k: int| 0 <= k < post.exemaps.len() implies (
            #[trigger] post.exemaps[k]).exe < post.exes.len() && post.exemaps[k].map
                < post.maps.len() by {
                if k < self.exemaps.len() {
                    assert(post.exemaps[k] == self.exemaps[k]);
                }
            }
            assert forall|k: int, l: int| 0 <= k < l < post.exemaps.len() implies !((
            #[trigger] post.exemaps[k]).exe == (#[trigger] post.exemaps[l]).exe
                && post.exemaps[k].map == post.exemaps[l].map) by {
                assert(post.exemaps[k] == self.exemaps[k]);
                if l < self.exemaps.len() {
                    assert(post.exemaps[l] == self.exemaps[l]);
                    assert(!(self.exemaps[k].exe == self.exemaps[l].exe && self.exemaps[k].map
                        == self.exemaps[l].map));
                } else {
                    assert(!(self.exemaps[k].exe == exe && self.exemaps[k].map == map));
                }
            }
            self.lemma_wf_frame(post);
            self.lemma_pairs_frame(post);
        }
    }

    /// Whether every pair is joined depends on the chains and on the number
    /// of executables only.
    pub proof fn lemma_pairs_frame(self, post: StateView)
        requires
            post.chains == self.chains,
            post.exes.len() == self.exes.len(),
        ensures
            post.pairs_complete() == self.pairs_complete(),
    {
        assert forall|x: int, y: int| #[trigger] post.linked(x, y) == self.linked(x, y) by {
            if self.linked(x, y) {
                let k = choose|k: int|
                    0 <= k < self.chains.len() && #[trigger] links(self.chains[k], x, y);
                assert(links(post.chains[k], x, y));
            }
            if post.linked(x, y) {
                let k = choose|k: int|
                    0 <= k < post.chains.len() && #[trigger] links(post.chains[k], x, y);
                assert(links(self.chains[k], x, y));
            }
        }
        if self.pairs_complete() {
            assert forall|x: int, y: int| 0 <= x < y < post.exes.len() implies #[trigger] post.linked(
                x,
                y,
            ) by {
                assert(self.linked(x, y));
            }
        }
        if post.pairs_complete() {
            assert forall|x: int, y: int| 0 <= x < y < self.exes.len() implies #[trigger] self.linked(
                x,
                y,
            ) by {
                assert(post.linked(x, y));
            }
        }
    }

    /// The uses of regions after the region at position `i` left the
    /// registry: positions behind it move down by one.
    pub open spec fn shifted_exemaps(self, i: int) -> Seq<ExeMap> {
        Seq::new(
            self.exemaps.len(),
            |k: int|
                if self.exemaps[k].map > i {
                    ExeMap { map: (self.exemaps[k].map - 1) as usize, ..self.exemaps[k] }
                } else {
                    self.exemaps[k]
                },
        )
    }

    /// The model after the region at position `i` left the registry.
    pub open spec fn spec_unregister_map(self, i: int) -> StateView {
        StateView { maps: self.maps.remove(i), exemaps: self.shifted_exemaps(i), ..self }
    }

    /// The chains that pair a new executable `exe` with every known one, in
    /// the order of the known ones.
    pub open spec fn new_chains(self, exe: Exe, cycle: u32) -> Seq<Chain> {
        Seq::new(
            self.exes.len(),
            |k: int|
                Chain::made(
                    k as usize,
                    self.exes.len() as usize,
                    self.exes[k].spec_endpoint(self.clock()),
                    exe.spec_endpoint(self.clock()),
                    cycle,
                    true,
                    self.time,
                ),
        )
    }

    /// The transitions that the first `n` of those chains record as they are
    /// made.
    pub open spec fn first_updates(self, exe: Exe, n: int) -> Seq<DwellUpdate>
        decreases n,
    {
        if n <= 0 {
            Seq::empty()
        } else {
            let rest = self.first_updates(exe, n - 1);
            match Chain::spec_first_transition(
                self.exes[n - 1].spec_endpoint(self.clock()),
                exe.spec_endpoint(self.clock()),
                true,
                self.time,
            ) {
                Some(transition) => rest.push(
                    DwellUpdate { chain: (self.chains.len() + n - 1) as usize, transition },
                ),
                None => rest,
            }
        }
    }

    /// The model after `exe` was registered under the next sequence number,
    /// with its chains where `create_markovs` asks for them.
    pub open spec fn spec_register_exe(self, exe: Exe, create_markovs: bool, cycle: u32) -> StateView {
        StateView {
            exe_seq: (self.exe_seq + 1) as i32,
            exes: self.exes.push(Exe { seq: (self.exe_seq + 1) as i32, ..exe }),
            chains: if create_markovs {
                self.chains + self.new_chains(exe, cycle)
            } else {
                self.chains
            },
            ..self
        }
    }

    /// The model after executable `exe` was recorded as using the region at
    /// position `map`: where that is news, the use is added with probability
    /// `prob` and the region's length is added to the executable's size.
    pub open spec fn spec_add_exemap(self, exe: usize, map: usize, prob: u64) -> StateView {
        if self.has_exemap(exe as int, map as int) {
            self
        } else {
            StateView {
                exemaps: self.exemaps.push(ExeMap { exe, map, prob }),
                exes: self.exes.update(
                    exe as int,
                    Exe {
                        size: capped_sum(self.exes[exe as int].size, self.maps[map as int].length),
                        ..self.exes[exe as int]
                    },
                ),
                ..self
            }
        }
    }

    /// The model after executable `exe` was recorded as using `region`,
    /// which is registered first where it is new.
    pub open spec fn spec_map_exe(self, exe: usize, region: Region, prob: u64) -> StateView {
        match self.find_map(region) {
            Some(map) => self.spec_add_exemap(exe, map as usize, prob),
            None => self.spec_register_map(region).spec_add_exemap(
                exe,
                self.maps.len() as usize,
                prob,
            ),
        }
    }
}

impl StateView {
    /// The model after the place on disk of `region` was noted for the
    /// registered region that is the same.
    pub open spec fn spec_set_block(self, region: Region, block: i64) -> StateView {
        match self.find_map(region) {
            Some(i) => StateView {
                maps: self.maps.update(i, Region { block, ..self.maps[i] }),
                ..self
            },
            None => self,
        }
    }

    /// The model after the places on disk of the first `n` of `regions` were
    /// noted.
    pub open spec fn spec_note_blocks(self, regions: Seq<Region>, n: int) -> StateView
        decreases n,
    {
        if n <= 0 {
            self
        } else {
            self.spec_note_blocks(regions, n - 1).spec_set_block(
                regions[n - 1],
                regions[n - 1].block,
            )
        }
    }
}

impl State {
    /// The invariant of the model.
    pub open spec fn wf(&self) -> bool {
        self@.wf()
    }

    /// A model that knows nothing, at time zero.
    pub fn new() -> (s: State)
        ensures
            s.wf(),
            s@.time == 0,
            s@.exes.len() == 0,
            s@.bad_exes.len() == 0,
            s@.maps.len() == 0,
            s@.exemaps.len() == 0,
            s@.chains.len() == 0,
            s@.running_exes.len() == 0,
            s@.state_changed_exes.len() == 0,
            s@.new_running_exes.len() == 0,
            s@.new_exes.len() == 0,
            s@.map_seq == 0,
            s@.exe_seq == 0,
            s@.last_running_timestamp == 0,
            s@.last_accounting_timestamp == 0,
            !s@.dirty,
            !s@.model_dirty,
            s@.memstat == (MemInfo { total: 0, free: 0, buffers: 0, cached: 0, pagein: 0, pageout: 0 }),
            s@.memstat_timestamp == 0,
    {
        State {
            time: 0,
            exes: Vec::new(),
            bad_exes: Vec::new(),
            maps: Vec::new(),
            exemaps: Vec::new(),
            chains: Vec::new(),
            running_exes: Vec::new(),
            map_seq: 0,
            exe_seq: 0,
            last_running_timestamp: 0,
            last_accounting_timestamp: 0,
            dirty: false,
            model_dirty: false,
            memstat: MemInfo::zero(),
            memstat_timestamp: 0,
            state_changed_exes: Vec::new(),
            new_running_exes: Vec::new(),
            new_exes: Vec::new(),
        }
    }

    /// The clock of the model.
    pub fn clock(&self) -> (c: Clock)
        ensures
            c == self@.clock(),
    {
        Clock { time: self.time, last_running_timestamp: self.last_running_timestamp }
    }

    /// The position of the region that is the same as `region`, if it is
    /// registered.
    pub fn find_map(&self, region: &Region) -> (r: Option<usize>)
        ensures
            r is Some <==> self@.has_map(*region),
            r is Some ==> r->Some_0 < self@.maps.len() && self@.maps[r->Some_0 as int].same_key(
                region,
            ),
            self.wf() ==> match r {
                Some(i) => self@.find_map(*region) == Some(i as int),
                None => self@.find_map(*region) is None,
            },
    {
        let mut i: usize = 0;
        while i < self.maps.len()
            invariant
                i <= self.maps@.len(),
                forall|j: int| 0 <= j < i ==> !(#[trigger] self.maps@[j]).same_key(region),
            decreases self.maps@.len() - i,
        {
            if self.maps[i].is_same(region) {
                assert(self@.maps[i as int].same_key(region));
                proof {
                    if self.wf() {
                        let j = self@.find_map(*region)->Some_0;
                        assert(self@.maps[j].same_key(region));
                        if j < i {
                            assert(!self@.maps[j].same_key(&self@.maps[i as int]));
                        } else if i < j {
                            assert(!self@.maps[i as int].same_key(&self@.maps[j]));
                        }
                    }
                }
                return Some(i);
            }
            i = i + 1;
        }
        None
    }

    /// The position of the executable with the given path, if it is known.
    pub fn find_exe(&self, path: &String) -> (r: Option<usize>)
        ensures
            r is Some <==> self@.has_exe(path@),
            r is Some ==> r->Some_0 < self@.exes.len() && self@.exes[r->Some_0 as int].path@
                == path@,
            self.wf() ==> match r {
                Some(i) => self@.find_exe(path@) == Some(i as int),
                None => self@.find_exe(path@) is None,
            },
    {
        let mut i: usize = 0;
        while i < self.exes.len()
            invariant
                i <= self.exes@.len(),
                forall|j: int| 0 <= j < i ==> (#[trigger] self.exes@[j]).path@ != path@,
            decreases self.exes@.len() - i,
        {
            if self.exes[i].path == *path {
                assert(self@.exes[i as int].path@ == path@);
                proof {
                    if self.wf() {
                        let j = self@.find_exe(path@)->Some_0;
                        assert(self@.exes[j].path@ == path@);
                        if j < i {
                            assert(self@.exes[j].path@ != self@.exes[i as int].path@);
                        } else if i < j {
                            assert(self@.exes[i as int].path@ != self@.exes[j].path@);
                        }
                    }
                }
                return Some(i);
            }
            i = i + 1;
        }
        None
    }

    /// Adds `region` to the registry under the next sequence number, and
    /// returns that number.
    ///
    /// Fails with [`Failure::DuplicateMap`] where the same region is
    /// registered already, and with [`Failure::SequenceExhausted`] where no
    /// sequence number is left. A failure changes nothing.
    pub fn register_map(&mut self, region: Region) -> (r: Result<i32, Failure>)
        requires
            old(self).wf(),
        ensures
            final(self).wf(),
            r == Err::<i32, Failure>(Failure::DuplicateMap) <==> old(self)@.has_map(region),
            r == Err::<i32, Failure>(Failure::SequenceExhausted) <==> !old(self)@.has_map(region) && old(self)@.map_seq == i32::MAX,
            r is Err <==> old(self)@.has_map(region) || old(self)@.map_seq == i32::MAX,
            r is Err ==> final(self)@ == old(self)@,
            r is Ok ==> {
                &&& r->Ok_0 == old(self)@.map_seq + 1
                &&& final(self)@ == old(self)@.spec_register_map(region)
                &&& forall|i: int|
                    0 <= i < old(self)@.maps.len() ==> (#[trigger] old(self)@.maps[i]).seq < r->Ok_0
                &&& forall|i: int|
                    0 <= i < final(self)@.maps.len() ==> ((#[trigger] final(self)@.maps[i]).seq
                        == r->Ok_0 <==> i == old(self)@.maps.len())
            },
    {
        if self.find_map(&region).is_some() {
            return Err(Failure::DuplicateMap);
        }
        if self.map_seq == i32::MAX {
            return Err(Failure::SequenceExhausted);
        }
        let ghost given = region;
        let seq = self.map_seq + 1;
        let mut region = region;
        region.seq = seq;
        self.map_seq = seq;
        self.maps.push(region);
        proof {
            assert(self@.maps =~= old(self)@.spec_register_map(given).maps);
            assert(self@ == old(self)@.spec_register_map(given));
            old(self)@.lemma_register_map(given);
        }
        Ok(seq)
    }
    /// Whether any executable is recorded as using the same region as
    /// `region`.
    pub fn map_in_use(&self, region: &Region) -> (r: bool)
        requires
            self.wf(),
        ensures
            r == self@.map_in_use(*region),
    {
        let mut k: usize = 0;
        while k < self.exemaps.len()
            invariant
                self.wf(),
                k <= self@.exemaps.len(),
                forall|j: int|
                    0 <= j < k ==> !self@.maps[(#[trigger] self@.exemaps[j]).map as int].same_key(
                        region,
                    ),
            decreases self@.exemaps.len() - k,
        {
            assert(self@.exemaps[k as int].map < self@.maps.len());
            if self.maps[self.exemaps[k].map].is_same(region) {
                return true;
            }
            k = k + 1;
        }
        false
    }

    /// Removes the same region as `region` from the registry, and says
    /// whether there was one.
    ///
    /// The region must not be in use by any executable.
    pub fn unregister_map(&mut self, region: &Region) -> (removed: bool)
        requires
            old(self).wf(),
            !old(self)@.map_in_use(*region),
        ensures
            final(self).wf(),
            removed == old(self)@.has_map(*region),
            final(self)@ == (match old(self)@.find_map(*region) {
                Some(i) => old(self)@.spec_unregister_map(i),
                None => old(self)@,
            }),
    {
        let i = match self.find_map(region) {
            Some(i) => i,
            None => {
                return false;
            },
        };
        proof {
            if old(self)@.map_in_use(old(self)@.maps[i as int]) {
                let k = choose|k: int|
                    0 <= k < old(self)@.exemaps.len() && 0 <= (#[trigger] old(self)@.exemaps[k]).map < old(self)@.maps.len() && old(self)@.maps[old(self)@.exemaps[k].map as int].same_key(&old(self)@.maps[i as int]);
                assert(old(self)@.maps[old(self)@.exemaps[k].map as int].same_key(region));
            }
            old(self)@.lemma_unregister_map(i as int);
        }
        self.maps.remove(i);
        let mut k: usize = 0;
        while k < self.exemaps.len()
            invariant
                k <= self.exemaps@.len(),
                self.exemaps@.len() == old(self)@.exemaps.len(),
                forall|j: int|
                    0 <= j < k ==> #[trigger] self.exemaps@[j] == old(self)@.shifted_exemaps(
                        i as int,
                    )[j],
                forall|j: int|
                    k <= j < self.exemaps@.len() ==> #[trigger] self.exemaps@[j] == old(self)@.exemaps[j],
                self.maps@ == old(self)@.maps.remove(i as int),
                self.time == old(self).time,
                self.exes == old(self).exes,
                self.bad_exes == old(self).bad_exes,
                self.chains == old(self).chains,
                self.running_exes == old(self).running_exes,
                self.map_seq == old(self).map_seq,
                self.exe_seq == old(self).exe_seq,
                self.last_running_timestamp == old(self).last_running_timestamp,
                self.last_accounting_timestamp == old(self).last_accounting_timestamp,
                self.dirty == old(self).dirty,
                self.model_dirty == old(self).model_dirty,
                self.memstat == old(self).memstat,
                self.memstat_timestamp == old(self).memstat_timestamp,
                self.state_changed_exes == old(self).state_changed_exes,
                self.new_running_exes == old(self).new_running_exes,
                self.new_exes == old(self).new_exes,
            decreases self.exemaps@.len() - k,
        {
            if self.exemaps[k].map > i {
                self.exemaps[k].map = self.exemaps[k].map - 1;
            }
            k = k + 1;
        }
        proof {
            assert(self@.exemaps =~= old(self)@.shifted_exemaps(i as int));
            assert(self@ == old(self)@.spec_unregister_map(i as int));
        }
        true
    }

    /// Adds `exe` to the known executables under the next sequence number.
    /// With `create_markovs`, a chain is made between every known
    /// executable and the new one, and the transitions that those chains
    /// record at once are returned.
    ///
    /// Fails with [`Failure::DuplicateExe`] where the path is known already,
    /// and with [`Failure::SequenceExhausted`] where no sequence number is
    /// left. A failure changes nothing.
    pub fn register_exe(&mut self, exe: Exe, create_markovs: bool, cycle: u32) -> (r: Result<
        Vec<DwellUpdate>,
        Failure,
    >)
        requires
            old(self).wf(),
        ensures
            final(self).wf(),
            r matches Err(e) ==> (e == Failure::DuplicateExe <==> old(self)@.has_exe(exe.path@)),
            r matches Err(e) ==> (e == Failure::SequenceExhausted <==> !old(self)@.has_exe(exe.path@)),
            r is Err <==> old(self)@.has_exe(exe.path@) || old(self)@.exe_seq == i32::MAX,
            r is Err ==> final(self)@ == old(self)@,
            r is Ok ==> final(self)@ == old(self)@.spec_register_exe(exe, create_markovs, cycle),
            r is Ok ==> r->Ok_0@ == (if create_markovs {
                old(self)@.first_updates(exe, old(self)@.exes.len() as int)
            } else {
                Seq::<DwellUpdate>::empty()
            }),
            r is Ok && create_markovs && old(self)@.pairs_complete() ==> final(self)@.pairs_complete(),
            old(self)@.ready() && exe.time == 0 ==> final(self)@.ready(),
    {
        if self.find_exe(&exe.path).is_some() {
            return Err(Failure::DuplicateExe);
        }
        if self.exe_seq == i32::MAX {
            return Err(Failure::SequenceExhausted);
        }
        let n = self.exes.len();
        let clock = self.clock();
        let mut updates: Vec<DwellUpdate> = Vec::new();
        if create_markovs {
            let new_end = exe.endpoint(&clock);
            let mut k: usize = 0;
            while k < n
                invariant
                    k <= n,
                    n == self.exes@.len(),
                    clock == old(self)@.clock(),
                    new_end == exe.spec_endpoint(clock),
                    self.chains@ =~= old(self)@.chains + old(self)@.new_chains(exe, cycle).subrange(
                        0,
                        k as int,
                    ),
                    updates@ == old(self)@.first_updates(exe, k as int),
                    self.time == old(self).time,
                    self.exes == old(self).exes,
                    self.bad_exes == old(self).bad_exes,
                    self.maps == old(self).maps,
                    self.exemaps == old(self).exemaps,
                    self.running_exes == old(self).running_exes,
                    self.map_seq == old(self).map_seq,
                    self.exe_seq == old(self).exe_seq,
                    self.last_running_timestamp == old(self).last_running_timestamp,
                    self.last_accounting_timestamp == old(self).last_accounting_timestamp,
                    self.dirty == old(self).dirty,
                    self.model_dirty == old(self).model_dirty,
                    self.memstat == old(self).memstat,
                    self.memstat_timestamp == old(self).memstat_timestamp,
                    self.state_changed_exes == old(self).state_changed_exes,
                    self.new_running_exes == old(self).new_running_exes,
                    self.new_exes == old(self).new_exes,
                decreases n - k,
            {
                let old_end = self.exes[k].endpoint(&clock);
                let (chain, transition) = Chain::new(k, n, old_end, new_end, cycle, true, clock.time);
                match transition {
                    Some(transition) => {
                        updates.push(DwellUpdate { chain: self.chains.len(), transition });
                    },
                    None => {},
                }
                self.chains.push(chain);
                k = k + 1;
                proof {
                    assert(old(self)@.new_chains(exe, cycle).subrange(0, k as int)
                        =~= old(self)@.new_chains(exe, cycle).subrange(0, k - 1).push(chain));
                }
            }
            proof {
                assert(old(self)@.new_chains(exe, cycle).subrange(0, n as int) =~= old(self)@.new_chains(exe, cycle));
            }
        }
        let ghost given = exe;
        let mut exe = exe;
        exe.seq = self.exe_seq + 1;
        self.exe_seq = self.exe_seq + 1;
        self.exes.push(exe);
        proof {
            assert(self@.exes =~= old(self)@.spec_register_exe(given, create_markovs, cycle).exes);
            assert(self@.chains =~= old(self)@.spec_register_exe(given, create_markovs, cycle).chains);
            assert(self@ == old(self)@.spec_register_exe(given, create_markovs, cycle));
            old(self)@.lemma_register_exe(given, create_markovs, cycle);
        }
        Ok(updates)
    }

    /// Whether executable `exe` is recorded as using the region at position
    /// `map`.
    pub fn has_exemap(&self, exe: usize, map: usize) -> (r: bool)
        ensures
            r == self@.has_exemap(exe as int, map as int),
    {
        let mut k: usize = 0;
        while k < self.exemaps.len()
            invariant
                k <= self@.exemaps.len(),
                forall|j: int|
                    0 <= j < k ==> !((#[trigger] self@.exemaps[j]).exe == exe
                        && self@.exemaps[j].map == map),
            decreases self@.exemaps.len() - k,
        {
            if self.exemaps[k].exe == exe && self.exemaps[k].map == map {
                assert(self@.exemaps[k as int].exe == exe);
                return true;
            }
            k = k + 1;
        }
        false
    }

    /// Records that executable `exe` uses the region at position `map` with
    /// probability `prob`. A use that is known already changes nothing.
    pub fn add_exemap(&mut self, exe: usize, map: usize, prob: u64)
        requires
            old(self).wf(),
            exe < old(self)@.exes.len(),
            map < old(self)@.maps.len(),
        ensures
            final(self).wf(),
            final(self)@ == old(self)@.spec_add_exemap(exe, map, prob),
    {
        proof {
            old(self)@.lemma_add_exemap(exe, map, prob);
        }
        if !self.has_exemap(exe, map) {
            let length = self.maps[map].length;
            self.exemaps.push(ExeMap { exe, map, prob });
            self.exes[exe].size = capped_add(self.exes[exe].size, length);
            proof {
                assert(self@.exemaps =~= old(self)@.spec_add_exemap(exe, map, prob).exemaps);
                assert(self@.exes =~= old(self)@.spec_add_exemap(exe, map, prob).exes);
            }
        }
    }

    /// Records that executable `exe` uses `region` with probability `prob`,
    /// and returns the position of the region. A region that is new is
    /// registered first; a use that is known already changes nothing.
    ///
    /// Fails with [`Failure::SequenceExhausted`] where the region is new and
    /// no sequence number is left. A failure changes nothing.
    pub fn map_exe(&mut self, exe: usize, region: Region, prob: u64) -> (r: Result<usize, Failure>)
        requires
            old(self).wf(),
            exe < old(self)@.exes.len(),
        ensures
            final(self).wf(),
            final(self)@.pairs_complete() == old(self)@.pairs_complete(),
            old(self)@.ready() ==> final(self)@.ready(),
            final(self)@.exes.len() == old(self)@.exes.len(),
            r is Err <==> !old(self)@.has_map(region) && old(self)@.map_seq == i32::MAX,
            r is Err ==> r == Err::<usize, Failure>(Failure::SequenceExhausted) && final(self)@ == old(self)@,
            r is Ok ==> final(self)@ == old(self)@.spec_map_exe(exe, region, prob),
            r is Ok ==> r->Ok_0 < final(self)@.maps.len() && final(self)@.maps[r->Ok_0 as int].same_key(
                &region,
            ),
    {
        let map = match self.find_map(&region) {
            Some(map) => map,
            None => {
                match self.register_map(region) {
                    Ok(_) => self.maps.len() - 1,
                    Err(_) => {
                        return Err(Failure::SequenceExhausted);
                    },
                }
            },
        };
        let ghost mid = self@;
        proof {
            mid.lemma_add_exemap(exe, map, prob);
            old(self)@.lemma_pairs_frame(mid);
            if old(self)@.ready() {
                old(self)@.lemma_ready_kept(mid);
                mid.lemma_ready_kept(mid.spec_add_exemap(exe, map, prob));
            }
        }
        if !self.has_exemap(exe, map) {
            let length = self.maps[map].length;
            self.exemaps.push(ExeMap { exe, map, prob });
            self.exes[exe].size = capped_add(self.exes[exe].size, length);
            proof {
                assert(self@.exemaps =~= mid.spec_add_exemap(exe, map, prob).exemaps);
                assert(self@.exes =~= mid.spec_add_exemap(exe, map, prob).exes);
                assert(self@ == mid.spec_add_exemap(exe, map, prob));
            }
        }
        Ok(map)
    }
    /// The figures that a dump of the log shows.
    pub fn dump_log(&self) -> (stats: Stats)
        ensures
            stats == (Stats {
                time: self@.time,
                exes: self@.exes.len() as usize,
                bad_exes: self@.bad_exes.len() as usize,
                maps: self@.maps.len() as usize,
                running_exes: self@.running_exes.len() as usize,
            }),
    {
        Stats {
            time: self.time,
            exes: self.exes.len(),
            bad_exes: self.bad_exes.len(),
            maps: self.maps.len(),
            running_exes: self.running_exes.len(),
        }
    }

    /// Whether the model can take in changes and bring running times up to
    /// date within the limits of its counters.
    pub fn can_update(&self) -> (r: bool)
        ensures
            r == self@.ready(),
    {
        let period: i64 = self.time as i64 - self.last_accounting_timestamp as i64;
        if period < i32::MIN as i64 || period > i32::MAX as i64 {
            return false;
        }
        let mut i: usize = 0;
        while i < self.exes.len()
            invariant
                i <= self@.exes.len(),
                period == self@.period(),
                forall|j: int|
                    0 <= j < i ==> i32::MIN <= (#[trigger] self@.exes[j]).time + self@.period()
                        <= i32::MAX,
            decreases self@.exes.len() - i,
        {
            let sum: i64 = self.exes[i].time as i64 + period;
            if sum < i32::MIN as i64 || sum > i32::MAX as i64 {
                assert(!(i32::MIN <= self@.exes[i as int].time + self@.period() <= i32::MAX));
                return false;
            }
            i = i + 1;
        }
        let mut k: usize = 0;
        while k < self.chains.len()
            invariant
                k <= self@.chains.len(),
                period == self@.period(),
                i32::MIN <= self@.period() <= i32::MAX,
                forall|j: int|
                    0 <= j < self@.exes.len() ==> i32::MIN <= (#[trigger] self@.exes[j]).time
                        + self@.period() <= i32::MAX,
                forall|j: int|
                    0 <= j < k ==> {
                        &&& i32::MIN <= (#[trigger] self@.chains[j]).time + self@.period()
                            <= i32::MAX
                        &&& (self@.chains[j].has_room() || self@.chains[j].change_timestamp
                            >= self@.time)
                    },
            decreases self@.chains.len() - k,
        {
            let chain = &self.chains[k];
            let sum: i64 = chain.time as i64 + period;
            if sum < i32::MIN as i64 || sum > i32::MAX as i64 {
                assert(!(i32::MIN <= self@.chains[k as int].time + self@.period() <= i32::MAX));
                return false;
            }
            if !chain.check_room() && chain.change_timestamp < self.time {
                assert(!(self@.chains[k as int].has_room() || self@.chains[k as int].change_timestamp
                    >= self@.time));
                return false;
            }
            k = k + 1;
        }
        true
    }

    /// Records `bits` as the mean dwell time of chain `chain` in state
    /// `state`, and says whether there is such a chain and state.
    pub fn set_time_to_leave(&mut self, chain: usize, state: usize, bits: u64) -> (stored: bool)
        requires
            old(self).wf(),
        ensures
            final(self).wf(),
            stored == (chain < old(self)@.chains.len() && state < 4),
            !stored ==> final(self)@ == old(self)@,
            stored ==> {
                &&& final(self)@ == (StateView { chains: final(self)@.chains, ..old(self)@ })
                &&& final(self)@.chains.len() == old(self)@.chains.len()
                &&& forall|k: int|
                    0 <= k < old(self)@.chains.len() && k != chain ==> #[trigger] final(self)@.chains[k] == old(self)@.chains[k]
                &&& final(self)@.chains[chain as int] == (Chain {
                    time_to_leave: final(self)@.chains[chain as int].time_to_leave,
                    ..old(self)@.chains[chain as int]
                })
                &&& forall|s: int|
                    0 <= s < 4 ==> #[trigger] final(self)@.chains[chain as int].time_to_leave[s] == (
                    if s == state {
                        bits
                    } else {
                        old(self)@.chains[chain as int].time_to_leave[s]
                    })
            },
    {
        if chain >= self.chains.len() || state >= 4 {
            return false;
        }
        self.chains[chain].time_to_leave[state] = bits;
        proof {
            let pre = old(self)@;
            let post = self@;
            assert forall|j: int, l: int| 0 <= j < l < post.chains.len() implies !same_pair(
                #[trigger] post.chains[j],
                #[trigger] post.chains[l],
            ) by {
                assert(!same_pair(pre.chains[j], pre.chains[l]));
            }
            assert forall|j: int| 0 <= j < post.chains.len() implies {
                &&& (#[trigger] post.chains[j]).wf()
                &&& post.chains[j].a < post.exes.len()
                &&& post.chains[j].b < post.exes.len()
                &&& post.chains[j].a != post.chains[j].b
            } by {
                assert(pre.chains[j].wf());
            }
            pre.lemma_wf_frame(post);
        }
        true
    }

    /// Records `block` as the place on disk of the region that is the same
    /// as `region`, and says whether there is one.
    pub fn set_block(&mut self, region: &Region, block: i64) -> (stored: bool)
        requires
            old(self).wf(),
        ensures
            final(self).wf(),
            stored == old(self)@.has_map(*region),
            final(self)@ == old(self)@.spec_set_block(*region, block),
    {
        let i = match self.find_map(region) {
            Some(i) => i,
            None => {
                return false;
            },
        };
        self.maps[i].block = block;
        proof {
            let pre = old(self)@;
            let post = self@;
            assert(post.maps =~= pre.maps.update(i as int, Region { block, ..pre.maps[i as int] }));
            assert(post == StateView { maps: post.maps, ..pre });
            assert(pre.exes_wf() && pre.exemaps_wf() && pre.chains_wf() && pre.lists_wf()
                && pre.paths_wf() && pre.maps_wf());
            assert forall|x: int| 0 <= x < post.maps.len() implies (#[trigger] post.maps[x]).seq
                == pre.maps[x].seq && post.maps[x].same_key(&pre.maps[x]) by {}
            assert forall|x: int, y: int| 0 <= x < y < post.maps.len() implies (
            #[trigger] post.maps[x]).seq < (#[trigger] post.maps[y]).seq by {
                assert(pre.maps[x].seq < pre.maps[y].seq);
                assert(post.maps[x].seq == pre.maps[x].seq);
                assert(post.maps[y].seq == pre.maps[y].seq);
            }
            assert forall|x: int, y: int| 0 <= x < y < post.maps.len() implies !#[trigger] post.maps[x].same_key(
                &post.maps[y],
            ) by {
                assert(!pre.maps[x].same_key(&pre.maps[y]));
                assert(post.maps[x].same_key(&pre.maps[x]));
                assert(post.maps[y].same_key(&pre.maps[y]));
            }
            assert forall|x: int| 0 <= x < post.maps.len() implies 1 <= (#[trigger] post.maps[x]).seq
                <= post.map_seq by {
                assert(1 <= pre.maps[x].seq <= pre.map_seq);
                assert(post.maps[x].seq == pre.maps[x].seq);
            }
            pre.lemma_wf_frame(post);
        }
        true
    }

    /// Notes in the registry the places on disk that `regions` hold: each
    /// registered region that is the same as one of them takes its place.
    pub fn note_blocks(&mut self, regions: &Vec<Region>)
        requires
            old(self).wf(),
        ensures
            final(self).wf(),
            final(self)@ == old(self)@.spec_note_blocks(regions@, regions@.len() as int),
    {
        let mut i: usize = 0;
        while i < regions.len()
            invariant
                i <= regions@.len(),
                self.wf(),
                self@ == old(self)@.spec_note_blocks(regions@, i as int),
            decreases regions@.len() - i,
        {
            self.set_block(&regions[i], regions[i].block);
            i = i + 1;
        }
    }
}

} // verus!
