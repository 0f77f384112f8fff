//! Training: what a scan of the process table and the model update that
//! follows it do to the model.

use crate::markov::{get_markov_state, pair_state, Chain, DwellUpdate};
use crate::proc::{
    accept_file, get_maps, mapped_size, spec_accept_file, spec_accepted_maps, spec_mapped_size,
    ProcMap, Process,
};
use crate::state::{BadExe, Exe, NewExe, Region, State, StateView, PROB_ONE};
use vstd::prelude::*;

verus! {

/// What a probe of a process found of an executable seen for the first time.
#[derive(Debug)]
pub struct Probe {
    /// Absolute path of the executable.
    pub path: String,
    /// The process that was probed.
    pub pid: i32,
    /// The mappings of the process, or nothing where they could not be
    /// read.
    pub maps: Option<Vec<ProcMap>>,
}

/// What becomes of an executable that was probed.
#[derive(Clone, Copy, Debug, PartialEq, Eq, Structural)]
pub enum ProbeOutcome {
    /// The mappings of the process could not be read: nothing changes.
    Unreadable,
    /// The mappings are shorter in total than the least size: the
    /// executable is noted as too small.
    TooSmall,
    /// The process has no file-backed mappings any more: nothing changes.
    Gone,
    /// An executable with the path is known already: nothing changes.
    Known,
    /// No sequence number is left for the executable: nothing changes.
    Exhausted,
    /// The executable is taken into the model.
    Taken,
}

impl StateView {
    /// What becomes of the executable that `probe` found.
    pub open spec fn spec_probe_outcome(self, probe: Probe, minsize: u64) -> ProbeOutcome {
        if probe.maps is None {
            ProbeOutcome::Unreadable
        } else if spec_mapped_size(probe.maps->Some_0@, probe.maps->Some_0@.len() as int)
            < minsize {
            ProbeOutcome::TooSmall
        } else if spec_mapped_size(probe.maps->Some_0@, probe.maps->Some_0@.len() as int) == 0 {
            ProbeOutcome::Gone
        } else if self.has_exe(probe.path@) {
            ProbeOutcome::Known
        } else if self.exe_seq == i32::MAX {
            ProbeOutcome::Exhausted
        } else {
            ProbeOutcome::Taken
        }
    }

    /// What the outcome of a probe says of the model afterwards: an
    /// executable that is taken is known afterwards and is not noted as too
    /// small unless it was before; one that is too small is noted as such;
    /// and every other outcome leaves the model as it was.
    pub proof fn lemma_probe_outcome(
        self,
        probe: Probe,
        mapprefix: Seq<String>,
        minsize: u64,
        cycle: u32,
    )
        ensures
            self.spec_probe_outcome(probe, minsize) == ProbeOutcome::Taken <==> self.takes(
                probe,
                minsize,
            ),
            self.spec_probe_outcome(probe, minsize) == ProbeOutcome::TooSmall ==> self.spec_new_exe(
                probe,
                mapprefix,
                minsize,
                cycle,
            ).is_bad(probe.path@) && self.spec_new_exe(probe, mapprefix, minsize, cycle).exes
                == self.exes,
            self.spec_probe_outcome(probe, minsize) != ProbeOutcome::Taken
                && self.spec_probe_outcome(probe, minsize) != ProbeOutcome::TooSmall
                ==> self.spec_new_exe(probe, mapprefix, minsize, cycle) == self,
    {
        if self.spec_probe_outcome(probe, minsize) == ProbeOutcome::TooSmall {
            let maps = probe.maps->Some_0@;
            let entry = BadExe { path: probe.path, size: spec_mapped_size(maps, maps.len() as int) };
            let post = self.spec_note_bad_exe(entry);
            match self.find_bad_exe(entry.path@) {
                Some(k) => {
                    assert(post.bad_exes[k].path@ == probe.path@);
                },
                None => {
                    assert(post.bad_exes[self.bad_exes.len() as int].path@ == probe.path@);
                },
            }
        }
    }

    /// The position among the executables that are too small of the one with
    /// the given path, if it is there.
    pub open spec fn find_bad_exe(self, path: Seq<char>) -> Option<int> {
        if self.is_bad(path) {
            Some(
                choose|k: int| 0 <= k < self.bad_exes.len() && (#[trigger] self.bad_exes[k]).path@ == path,
            )
        } else {
            None
        }
    }

    /// The model after `entry` was noted as too small: it takes the place of
    /// an entry with the same path, or goes to the end.
    pub open spec fn spec_note_bad_exe(self, entry: BadExe) -> StateView {
        StateView {
            bad_exes: match self.find_bad_exe(entry.path@) {
                Some(k) => self.bad_exes.update(k, entry),
                None => self.bad_exes.push(entry),
            },
            ..self
        }
    }

    /// The model after executable `exe` was recorded as using the first `n`
    /// of `regions`, each with probability one. A region that is new and for
    /// which no sequence number is left is passed over.
    pub open spec fn spec_map_all(self, exe: usize, regions: Seq<Region>, n: int) -> StateView
        decreases n,
    {
        if n <= 0 {
            self
        } else {
            let pre = self.spec_map_all(exe, regions, n - 1);
            if !pre.has_map(regions[n - 1]) && pre.map_seq == i32::MAX {
                pre
            } else {
                pre.spec_map_exe(exe, regions[n - 1], PROB_ONE)
            }
        }
    }

    /// Whether the executable that `probe` found is taken into the model: its
    /// mappings could be read, their total length is positive and at least
    /// `minsize`, the path is not known yet, and a sequence number is left.
    pub open spec fn takes(self, probe: Probe, minsize: u64) -> bool {
        &&& probe.maps is Some
        &&& spec_mapped_size(probe.maps->Some_0@, probe.maps->Some_0@.len() as int) >= minsize
        &&& spec_mapped_size(probe.maps->Some_0@, probe.maps->Some_0@.len() as int) != 0
        &&& !self.has_exe(probe.path@)
        &&& self.exe_seq != i32::MAX
    }

    /// The model after it was reconciled with what `probe` found.
    ///
    /// Where the mappings could not be read, nothing changes. Where their
    /// total length is below `minsize`, the executable is noted as too small.
    /// Otherwise, where [`StateView::takes`] holds, the executable is
    /// registered as running, paired with every known executable, recorded as
    /// using every region that passes the filter `mapprefix`, and added to
    /// the running executables.
    pub open spec fn spec_new_exe(
        self,
        probe: Probe,
        mapprefix: Seq<String>,
        minsize: u64,
        cycle: u32,
    ) -> StateView {
        if probe.maps is None {
            self
        } else {
            let maps = probe.maps->Some_0@;
            let size = spec_mapped_size(maps, maps.len() as int);
            if size < minsize {
                self.spec_note_bad_exe(BadExe { path: probe.path, size })
            } else if !self.takes(probe, minsize) {
                self
            } else {
                let exe = Exe::spec_new(probe.path, true, 0, self.clock());
                let regions = spec_accepted_maps(maps, mapprefix, maps.len() as int);
                let mapped = self.spec_register_exe(exe, true, cycle).spec_map_all(
                    self.exes.len() as usize,
                    regions,
                    regions.len() as int,
                );
                StateView {
                    running_exes: mapped.running_exes.push(self.exes.len() as usize),
                    ..mapped
                }
            }
        }
    }

    /// The transitions recorded as the model was reconciled with what
    /// `probe` found: those of the chains made for the new executable.
    pub open spec fn spec_new_exe_updates(self, probe: Probe, minsize: u64) -> Seq<DwellUpdate> {
        if self.takes(probe, minsize) {
            self.first_updates(
                Exe::spec_new(probe.path, true, 0, self.clock()),
                self.exes.len() as int,
            )
        } else {
            Seq::empty()
        }
    }

    /// The model after it was reconciled with the first `n` of `probes`.
    pub open spec fn spec_new_exes(
        self,
        probes: Seq<Probe>,
        mapprefix: Seq<String>,
        minsize: u64,
        cycle: u32,
        n: int,
    ) -> StateView
        decreases n,
    {
        if n <= 0 {
            self
        } else {
            self.spec_new_exes(probes, mapprefix, minsize, cycle, n - 1).spec_new_exe(
                probes[n - 1],
                mapprefix,
                minsize,
                cycle,
            )
        }
    }

    /// The transitions recorded as the model was reconciled with the first
    /// `n` of `probes`.
    pub open spec fn spec_new_exes_updates(
        self,
        probes: Seq<Probe>,
        mapprefix: Seq<String>,
        minsize: u64,
        cycle: u32,
        n: int,
    ) -> Seq<DwellUpdate>
        decreases n,
    {
        if n <= 0 {
            Seq::empty()
        } else {
            self.spec_new_exes_updates(probes, mapprefix, minsize, cycle, n - 1)
                + self.spec_new_exes(probes, mapprefix, minsize, cycle, n - 1).spec_new_exe_updates(
                probes[n - 1],
                minsize,
            )
        }
    }

    /// The state that the endpoints of chain `k` are in.
    pub open spec fn current_state(self, k: int) -> int {
        pair_state(
            self.exes[self.chains[k].a as int].spec_is_running(self.clock()),
            self.exes[self.chains[k].b as int].spec_is_running(self.clock()),
        )
    }

    /// Whether executable `exe` is an endpoint of chain `k`.
    pub open spec fn touches(self, exe: usize, k: int) -> bool {
        self.chains[k].a == exe || self.chains[k].b == exe
    }

    /// The running time of executable `i`, if it runs, fits 32 bits with the
    /// period added.
    pub open spec fn exe_can_account(self, i: int) -> bool {
        self.exes[i].spec_is_running(self.clock()) ==> i32::MIN <= self.exes[i].time
            + self.period() <= i32::MAX
    }

    /// The time of chain `k`, if both its executables run, fits 32 bits with
    /// the period added.
    pub open spec fn chain_can_account(self, k: int) -> bool {
        self.chains[k].state == 3 ==> i32::MIN <= self.chains[k].time + self.period() <= i32::MAX
    }

    /// Running times can be brought up to date within the limits of their
    /// counters: the period fits 32 bits, and so does every running time that
    /// the period is added to.
    pub open spec fn can_account(self) -> bool {
        &&& i32::MIN <= self.period() <= i32::MAX
        &&& forall|i: int| 0 <= i < self.exes.len() ==> #[trigger] self.exe_can_account(i)
        &&& forall|k: int| 0 <= k < self.chains.len() ==> #[trigger] self.chain_can_account(k)
    }

    /// A model that is ready for an update can bring its running times up to
    /// date.
    pub proof fn lemma_ready_can_account(self)
        requires
            self.ready(),
        ensures
            self.can_account(),
    {
        assert forall|i: int| 0 <= i < self.exes.len() implies #[trigger] self.exe_can_account(
            i,
        ) by {
            assert(i32::MIN <= self.exes[i].time + self.period() <= i32::MAX);
        }
        assert forall|k: int| 0 <= k < self.chains.len() implies #[trigger] self.chain_can_account(
            k,
        ) by {
            assert(i32::MIN <= self.chains[k].time + self.period() <= i32::MAX);
        }
    }

    /// Chain `k` can take in a change of the state of executable `exe`: it
    /// is no chain of `exe`, or it has entered its state at the present time
    /// or later and will record nothing, or the count of transitions out of
    /// its state can still grow.
    pub open spec fn chain_can_change(self, exe: usize, k: int) -> bool {
        self.touches(exe, k) ==> self.chains[k].change_timestamp >= self.time
            || self.chains[k].weight[self.chains[k].state as int][self.chains[k].state as int]
            < i32::MAX
    }

    /// Every chain of executable `exe` can take in a change of its state.
    pub open spec fn can_change(self, exe: usize) -> bool {
        forall|k: int| 0 <= k < self.chains.len() ==> #[trigger] self.chain_can_change(exe, k)
    }

    /// A model that is ready for an update can take in a change of the state
    /// of any executable.
    pub proof fn lemma_ready_can_change(self, exe: usize)
        requires
            self.wf(),
            self.ready(),
        ensures
            self.can_change(exe),
    {
        assert forall|k: int| 0 <= k < self.chains.len() implies #[trigger] self.chain_can_change(
            exe,
            k,
        ) by {
            assert(self.chains[k].wf());
            assert(self.chains[k].has_room() || self.chains[k].change_timestamp >= self.time);
        }
    }

    /// Chain `k` after executable `exe` changed state: told of the state of
    /// its endpoints where `exe` is one of them.
    pub open spec fn told_chain(self, exe: usize, k: int) -> Chain {
        if self.touches(exe, k) {
            self.chains[k].told(self.time, self.current_state(k))
        } else {
            self.chains[k]
        }
    }

    /// The model after executable `exe` started or stopped running: the
    /// executable is stamped with the present time as the time of its
    /// change, and each of its chains is told of the state of its endpoints.
    pub open spec fn spec_changed(self, exe: usize) -> StateView {
        StateView {
            exes: self.exes.update(
                exe as int,
                Exe { change_timestamp: self.time, ..self.exes[exe as int] },
            ),
            chains: Seq::new(self.chains.len(), |k: int| self.told_chain(exe, k)),
            ..self
        }
    }

    /// The transitions that the first `n` chains record as executable `exe`
    /// changes state.
    pub open spec fn spec_changed_updates(self, exe: usize, n: int) -> Seq<DwellUpdate>
        decreases n,
    {
        if n <= 0 {
            Seq::empty()
        } else {
            let rest = self.spec_changed_updates(exe, n - 1);
            if self.touches(exe, n - 1) {
                match self.chains[n - 1].spec_transition(self.time, self.current_state(n - 1)) {
                    Some(transition) => rest.push(
                        DwellUpdate { chain: (n - 1) as usize, transition },
                    ),
                    None => rest,
                }
            } else {
                rest
            }
        }
    }

    /// The model after the first `n` of `changed` started or stopped
    /// running.
    pub open spec fn spec_changes(self, changed: Seq<usize>, n: int) -> StateView
        decreases n,
    {
        if n <= 0 {
            self
        } else {
            self.spec_changes(changed, n - 1).spec_changed(changed[n - 1])
        }
    }

    /// The transitions recorded as the first `n` of `changed` started or
    /// stopped running.
    pub open spec fn spec_changes_updates(self, changed: Seq<usize>, n: int) -> Seq<DwellUpdate>
        decreases n,
    {
        if n <= 0 {
            Seq::empty()
        } else {
            let pre = self.spec_changes(changed, n - 1);
            self.spec_changes_updates(changed, n - 1) + pre.spec_changed_updates(
                changed[n - 1],
                pre.chains.len() as int,
            )
        }
    }

    /// The model after running times were brought up to date: the period
    /// since the last time is added to the running time of every running
    /// executable and to the time of every chain in state 3.
    pub open spec fn spec_accounted(self) -> StateView {
        StateView {
            exes: Seq::new(
                self.exes.len(),
                |i: int|
                    Exe {
                        time: if self.exes[i].spec_is_running(self.clock()) {
                            (self.exes[i].time + self.period()) as i32
                        } else {
                            self.exes[i].time
                        },
                        ..self.exes[i]
                    },
            ),
            chains: Seq::new(
                self.chains.len(),
                |k: int|
                    Chain {
                        time: if self.chains[k].state == 3 {
                            (self.chains[k].time + self.period()) as i32
                        } else {
                            self.chains[k].time
                        },
                        ..self.chains[k]
                    },
            ),
            last_accounting_timestamp: self.time,
            ..self
        }
    }

    /// The model after a model update: it is reconciled with `probes`, the
    /// executables seen for the first time are forgotten, the executables
    /// that changed state are taken in and forgotten, and running times are
    /// brought up to date.
    pub open spec fn spec_update_model(
        self,
        probes: Seq<Probe>,
        mapprefix: Seq<String>,
        minsize: u64,
        cycle: u32,
    ) -> StateView {
        let changed = self.state_changed_exes;
        let cleared = StateView { new_exes: Seq::empty(), state_changed_exes: Seq::empty(), ..self };
        cleared.spec_new_exes(probes, mapprefix, minsize, cycle, probes.len() as int).spec_changes(
            changed,
            changed.len() as int,
        ).spec_accounted()
    }

    /// The transitions recorded in a model update, for the caller to fold
    /// into the mean dwell times.
    pub open spec fn spec_update_model_updates(
        self,
        probes: Seq<Probe>,
        mapprefix: Seq<String>,
        minsize: u64,
        cycle: u32,
    ) -> Seq<DwellUpdate> {
        let changed = self.state_changed_exes;
        let cleared = StateView { new_exes: Seq::empty(), state_changed_exes: Seq::empty(), ..self };
        cleared.spec_new_exes_updates(probes, mapprefix, minsize, cycle, probes.len() as int)
            + cleared.spec_new_exes(
            probes,
            mapprefix,
            minsize,
            cycle,
            probes.len() as int,
        ).spec_changes_updates(changed, changed.len() as int)
    }
}

impl StateView {
    /// Whether the executable with the given path is known to be too small.
    pub open spec fn is_bad(self, path: Seq<char>) -> bool {
        exists|k: int| 0 <= k < self.bad_exes.len() && (#[trigger] self.bad_exes[k]).path@ == path
    }

    /// The position among the executables seen for the first time of the
    /// one with the given path, if it is there.
    pub open spec fn find_new_exe(self, path: Seq<char>) -> Option<int> {
        if exists|k: int| 0 <= k < self.new_exes.len() && (#[trigger] self.new_exes[k]).path@ == path {
            Some(
                choose|k: int| 0 <= k < self.new_exes.len() && (#[trigger] self.new_exes[k]).path@ == path,
            )
        } else {
            None
        }
    }

    /// The model after `entry` was noted as seen for the first time: it
    /// takes the place of an entry with the same path, or goes to the end.
    pub open spec fn spec_note_new_exe(self, entry: NewExe) -> StateView {
        StateView {
            new_exes: match self.find_new_exe(entry.path@) {
                Some(k) => self.new_exes.update(k, entry),
                None => self.new_exes.push(entry),
            },
            ..self
        }
    }

    /// The model after a process `pid` was seen to run the executable at
    /// `path`.
    ///
    /// A known executable is stamped with the present time; where it was not
    /// running before, it joins the executables found running and those that
    /// changed state. An unknown executable is noted as seen for the first
    /// time, unless it is known to be too small.
    pub open spec fn spec_running_process(self, pid: i32, path: String) -> StateView {
        match self.find_exe(path@) {
            Some(i) => {
                let exe = self.exes[i];
                let stamped = self.exes.update(i, Exe { running_timestamp: self.time, ..exe });
                if exe.spec_is_running(self.clock()) {
                    StateView { exes: stamped, ..self }
                } else {
                    StateView {
                        exes: stamped,
                        new_running_exes: self.new_running_exes.push(i as usize),
                        state_changed_exes: self.state_changed_exes.push(i as usize),
                        ..self
                    }
                }
            },
            None => if self.is_bad(path@) {
                self
            } else {
                self.spec_note_new_exe(NewExe { path, pid })
            },
        }
    }

    /// Whether a scan takes notice of `process`: it is not the daemon
    /// itself, and its executable passes the filter.
    pub open spec fn notices(process: Process, own_pid: i32, prefixes: Option<Seq<String>>) -> bool {
        process.pid != own_pid && spec_accept_file(process.exe@, prefixes)
    }

    /// The model after the first `n` of `processes` were seen.
    pub open spec fn spec_running_processes(
        self,
        processes: Seq<Process>,
        own_pid: i32,
        prefixes: Option<Seq<String>>,
        n: int,
    ) -> StateView
        decreases n,
    {
        if n <= 0 {
            self
        } else {
            let seen = self.spec_running_processes(processes, own_pid, prefixes, n - 1);
            if Self::notices(processes[n - 1], own_pid, prefixes) {
                seen.spec_running_process(processes[n - 1].pid, processes[n - 1].exe)
            } else {
                seen
            }
        }
    }

    /// The model after executable `exe`, which was running at the scan
    /// before, was looked at again: it joins the executables found running if
    /// it still is, and those that changed state if not.
    pub open spec fn spec_exe_already_running(self, exe: usize) -> StateView {
        if self.exes[exe as int].spec_is_running(self.clock()) {
            StateView { new_running_exes: self.new_running_exes.push(exe), ..self }
        } else {
            StateView { state_changed_exes: self.state_changed_exes.push(exe), ..self }
        }
    }

    /// The model after the first `n` of `running` were looked at again.
    pub open spec fn spec_already_running(self, running: Seq<usize>, n: int) -> StateView
        decreases n,
    {
        if n <= 0 {
            self
        } else {
            self.spec_already_running(running, n - 1).spec_exe_already_running(running[n - 1])
        }
    }

    /// The model after a scan that found `processes`.
    ///
    /// Every process is seen in turn; the time of the scan becomes the time
    /// of the last scan; the executables that were running before are looked
    /// at again; and those found running are the running ones from now on.
    pub open spec fn spec_scan(
        self,
        processes: Seq<Process>,
        own_pid: i32,
        prefixes: Option<Seq<String>>,
    ) -> StateView {
        let cleared = StateView {
            state_changed_exes: Seq::empty(),
            new_running_exes: Seq::empty(),
            ..self
        };
        let seen = cleared.spec_running_processes(processes, own_pid, prefixes, processes.len() as int);
        let stamped = StateView { last_running_timestamp: seen.time, ..seen };
        let checked = stamped.spec_already_running(self.running_exes, self.running_exes.len() as int);
        StateView { running_exes: checked.new_running_exes, ..checked }
    }

    /// After an executable has started or stopped running, every chain of it
    /// that had entered its state before the present time is in the state
    /// that its two executables are in.
    pub proof fn lemma_changed_chain_follows(self, exe: usize, k: int)
        requires
            self.wf(),
            self.chains[k].has_room(),
            exe < self.exes.len(),
            0 <= k < self.chains.len(),
            self.touches(exe, k),
            self.chains[k].change_timestamp < self.time,
        ensures
            self.spec_changed(exe).chains[k].state == self.current_state(k),
            self.spec_changed(exe).chains[k].wf(),
            self.spec_changed(exe).chains[k].change_timestamp <= self.time,
    {
        let chain = self.chains[k];
        assert(chain.wf());
        chain.lemma_told(
            self.time,
            self.exes[chain.a as int].spec_is_running(self.clock()),
            self.exes[chain.b as int].spec_is_running(self.clock()),
        );
    }

    /// Recording the regions that an executable uses keeps the invariant and
    /// touches nothing but the regions, their uses and the size of the
    /// executable.
    pub proof fn lemma_map_all(self, exe: usize, regions: Seq<Region>, n: int)
        requires
            self.wf(),
            exe < self.exes.len(),
            0 <= n <= regions.len(),
        ensures
            self.spec_map_all(exe, regions, n).wf(),
            self.spec_map_all(exe, regions, n) == (StateView {
                maps: self.spec_map_all(exe, regions, n).maps,
                map_seq: self.spec_map_all(exe, regions, n).map_seq,
                exemaps: self.spec_map_all(exe, regions, n).exemaps,
                exes: self.spec_map_all(exe, regions, n).exes,
                ..self
            }),
            self.spec_map_all(exe, regions, n).exes.len() == self.exes.len(),
            forall|i: int|
                0 <= i < self.exes.len() ==> (#[trigger] self.spec_map_all(
                    exe,
                    regions,
                    n,
                ).exes[i]).path@ == self.exes[i].path@,
        decreases n,
    {
        if n > 0 {
            self.lemma_map_all(exe, regions, n - 1);
            let pre = self.spec_map_all(exe, regions, n - 1);
            let region = regions[n - 1];
            if !(!pre.has_map(region) && pre.map_seq == i32::MAX) {
                match pre.find_map(region) {
                    Some(map) => {
                        pre.lemma_maps_count(map);
                        pre.lemma_add_exemap(exe, map as usize, PROB_ONE);
                    },
                    None => {
                        pre.lemma_register_map(region);
                        let registered = pre.spec_register_map(region);
                        registered.lemma_maps_count(pre.maps.len() as int);
                        registered.lemma_add_exemap(exe, pre.maps.len() as usize, PROB_ONE);
                    },
                }
                let post = pre.spec_map_exe(exe, region, PROB_ONE);
                assert forall|i: int| 0 <= i < self.exes.len() implies (#[trigger] post.exes[i]).path@
                    == self.exes[i].path@ by {
                    assert(pre.exes[i].path@ == self.exes[i].path@);
                }
            }
        }
    }

    /// An executable that is taken into the model is known afterwards under
    /// the next position, runs, and is not noted as too small by that; the
    /// invariant holds, so that every use of a region names a registered
    /// region, and every pair of executables keeps or gets its chain.
    pub proof fn lemma_new_exe_taken(
        self,
        probe: Probe,
        mapprefix: Seq<String>,
        minsize: u64,
        cycle: u32,
    )
        requires
            self.wf(),
            self.takes(probe, minsize),
        ensures
            self.spec_new_exe(probe, mapprefix, minsize, cycle).wf(),
            self.spec_new_exe(probe, mapprefix, minsize, cycle).has_exe(probe.path@),
            self.spec_new_exe(probe, mapprefix, minsize, cycle).exes.len() == self.exes.len() + 1,
            self.spec_new_exe(probe, mapprefix, minsize, cycle).bad_exes == self.bad_exes,
            self.spec_new_exe(probe, mapprefix, minsize, cycle).new_exes == self.new_exes,
            self.spec_new_exe(probe, mapprefix, minsize, cycle).state_changed_exes
                == self.state_changed_exes,
            self.spec_new_exe(probe, mapprefix, minsize, cycle).time == self.time,
            self.spec_new_exe(probe, mapprefix, minsize, cycle).chains.len() == self.chains.len()
                + self.exes.len(),
            self.pairs_complete() ==> self.spec_new_exe(
                probe,
                mapprefix,
                minsize,
                cycle,
            ).pairs_complete(),
    {
        let maps = probe.maps->Some_0@;
        let exe = Exe::spec_new(probe.path, true, 0, self.clock());
        let regions = spec_accepted_maps(maps, mapprefix, maps.len() as int);
        if self.exes.len() > 0 {
            self.lemma_exes_count(0);
        }
        let index = self.exes.len() as usize;
        self.lemma_register_exe(exe, true, cycle);
        let registered = self.spec_register_exe(exe, true, cycle);
        registered.lemma_map_all(index, regions, regions.len() as int);
        let mapped = registered.spec_map_all(index, regions, regions.len() as int);
        registered.lemma_pairs_frame(mapped);
        let post = self.spec_new_exe(probe, mapprefix, minsize, cycle);
        assert(post == StateView { running_exes: mapped.running_exes.push(index), ..mapped });
        assert forall|k: int| 0 <= k < post.running_exes.len() implies #[trigger] post.running_exes[k]
            < mapped.exes.len() by {
            if k < mapped.running_exes.len() {
                assert(post.running_exes[k] == mapped.running_exes[k]);
                assert(self.running_exes[k] < self.exes.len());
            }
        }
        assert forall|k: int| 0 <= k < post.new_running_exes.len() implies #[trigger] post.new_running_exes[k]
            < mapped.exes.len() by {
            assert(self.new_running_exes[k] < self.exes.len());
        }
        assert forall|k: int| 0 <= k < post.state_changed_exes.len() implies #[trigger] post.state_changed_exes[k]
            < mapped.exes.len() by {
            assert(self.state_changed_exes[k] < self.exes.len());
        }
        mapped.lemma_update_lists(post);
        mapped.lemma_pairs_frame(post);
        assert(post.exes[index as int].path@ == registered.exes[index as int].path@);
        assert(registered.exes[index as int].path@ == probe.path@);
    }

    /// Noting an executable as too small keeps the invariant.
    pub proof fn lemma_note_bad_exe(self, entry: BadExe)
        requires
            self.wf(),
        ensures
            self.spec_note_bad_exe(entry).wf(),
    {
        let post = self.spec_note_bad_exe(entry);
        match self.find_bad_exe(entry.path@) {
            Some(k) => {
                assert forall|i: int, j: int| 0 <= i < j < post.bad_exes.len() implies (
                #[trigger] post.bad_exes[i]).path@ != (#[trigger] post.bad_exes[j]).path@ by {
                    assert(post.bad_exes[i].path@ == self.bad_exes[i].path@);
                    assert(post.bad_exes[j].path@ == self.bad_exes[j].path@);
                }
            },
            None => {
                assert forall|i: int, j: int| 0 <= i < j < post.bad_exes.len() implies (
                #[trigger] post.bad_exes[i]).path@ != (#[trigger] post.bad_exes[j]).path@ by {
                    assert(post.bad_exes[i] == self.bad_exes[i]);
                    if j < self.bad_exes.len() {
                        assert(post.bad_exes[j] == self.bad_exes[j]);
                    }
                }
            },
        }
        self.lemma_wf_frame(post);
    }

    /// Reconciling the model with probes keeps the invariant and leaves the
    /// clock and the lists of new and changed executables as they are.
    pub proof fn lemma_new_exes_frame(
        self,
        probes: Seq<Probe>,
        mapprefix: Seq<String>,
        minsize: u64,
        cycle: u32,
        n: int,
    )
        requires
            self.wf(),
            0 <= n <= probes.len(),
        ensures
            self.spec_new_exes(probes, mapprefix, minsize, cycle, n).wf(),
            self.spec_new_exes(probes, mapprefix, minsize, cycle, n).new_exes == self.new_exes,
            self.spec_new_exes(probes, mapprefix, minsize, cycle, n).state_changed_exes
                == self.state_changed_exes,
            self.spec_new_exes(probes, mapprefix, minsize, cycle, n).time == self.time,
        decreases n,
    {
        if n > 0 {
            self.lemma_new_exes_frame(probes, mapprefix, minsize, cycle, n - 1);
            let pre = self.spec_new_exes(probes, mapprefix, minsize, cycle, n - 1);
            let probe = probes[n - 1];
            if probe.maps is Some {
                let maps = probe.maps->Some_0@;
                let size = spec_mapped_size(maps, maps.len() as int);
                if size < minsize {
                    pre.lemma_note_bad_exe(BadExe { path: probe.path, size });
                } else if pre.takes(probe, minsize) {
                    pre.lemma_new_exe_taken(probe, mapprefix, minsize, cycle);
                }
            }
        }
    }

    /// Taking in the executables that changed state leaves the clock and the
    /// lists of new and changed executables as they are.
    pub proof fn lemma_changes_frame(self, changed: Seq<usize>, n: int)
        requires
            0 <= n,
        ensures
            self.spec_changes(changed, n).new_exes == self.new_exes,
            self.spec_changes(changed, n).state_changed_exes == self.state_changed_exes,
            self.spec_changes(changed, n).time == self.time,
        decreases n,
    {
        if n > 0 {
            self.lemma_changes_frame(changed, n - 1);
        }
    }

    /// After a model update nothing is left of the lists of executables seen
    /// for the first time and of executables that changed state, and running
    /// times are up to date as of the present time.
    pub proof fn lemma_update_model_forgets(
        self,
        probes: Seq<Probe>,
        mapprefix: Seq<String>,
        minsize: u64,
        cycle: u32,
    )
        requires
            self.wf(),
        ensures
            self.spec_update_model(probes, mapprefix, minsize, cycle).new_exes.len() == 0,
            self.spec_update_model(probes, mapprefix, minsize, cycle).state_changed_exes.len() == 0,
            self.spec_update_model(probes, mapprefix, minsize, cycle).last_accounting_timestamp
                == self.time,
            self.spec_update_model(probes, mapprefix, minsize, cycle).time == self.time,
    {
        let changed = self.state_changed_exes;
        let cleared = StateView { new_exes: Seq::empty(), state_changed_exes: Seq::empty(), ..self };
        self.lemma_wf_frame(cleared);
        cleared.lemma_new_exes_frame(probes, mapprefix, minsize, cycle, probes.len() as int);
        let reconciled = cleared.spec_new_exes(probes, mapprefix, minsize, cycle, probes.len() as int);
        reconciled.lemma_changes_frame(changed, changed.len() as int);
    }

    /// Whether an executable with the given path is noted as seen for the
    /// first time.
    pub open spec fn has_new_exe(self, path: Seq<char>) -> bool {
        exists|k: int| 0 <= k < self.new_exes.len() && (#[trigger] self.new_exes[k]).path@ == path
    }

    /// Whether a scan takes notice of a process among the first `n` that
    /// runs the executable at `path`.
    pub open spec fn sees(
        processes: Seq<Process>,
        own_pid: i32,
        prefixes: Option<Seq<String>>,
        n: int,
        path: Seq<char>,
    ) -> bool {
        exists|j: int|
            0 <= j < n && #[trigger] Self::notices(processes[j], own_pid, prefixes)
                && processes[j].exe@ == path
    }

    /// After an executable was noted as seen for the first time, the paths
    /// that are noted are those that were and its own.
    pub proof fn lemma_note_new_exe_paths(self, entry: NewExe, path: Seq<char>)
        requires
            self.wf(),
        ensures
            self.spec_note_new_exe(entry).has_new_exe(path) <==> self.has_new_exe(path) || path
                == entry.path@,
    {
        let post = self.spec_note_new_exe(entry);
        match self.find_new_exe(entry.path@) {
            Some(k) => {
                assert(self.new_exes[k].path@ == entry.path@);
                if post.has_new_exe(path) {
                    let i = choose|i: int|
                        0 <= i < post.new_exes.len() && (#[trigger] post.new_exes[i]).path@ == path;
                    if i != k {
                        assert(self.new_exes[i].path@ == path);
                    }
                }
                if self.has_new_exe(path) {
                    let i = choose|i: int|
                        0 <= i < self.new_exes.len() && (#[trigger] self.new_exes[i]).path@ == path;
                    assert(post.new_exes[i].path@ == path);
                }
                if path == entry.path@ {
                    assert(post.new_exes[k].path@ == path);
                }
            },
            None => {
                if post.has_new_exe(path) {
                    let i = choose|i: int|
                        0 <= i < post.new_exes.len() && (#[trigger] post.new_exes[i]).path@ == path;
                    if i < self.new_exes.len() {
                        assert(self.new_exes[i].path@ == path);
                    }
                }
                if self.has_new_exe(path) {
                    let i = choose|i: int|
                        0 <= i < self.new_exes.len() && (#[trigger] self.new_exes[i]).path@ == path;
                    assert(post.new_exes[i].path@ == path);
                }
                if path == entry.path@ {
                    assert(post.new_exes[self.new_exes.len() as int].path@ == path);
                }
            },
        }
    }

    /// Seeing processes while no executable is known or noted as too small
    /// notes exactly the executables of the processes that the scan takes
    /// notice of, and fills no list.
    pub proof fn lemma_first_sightings(
        self,
        processes: Seq<Process>,
        own_pid: i32,
        prefixes: Option<Seq<String>>,
        n: int,
        path: Seq<char>,
    )
        requires
            self.wf(),
            self.exes.len() == 0,
            self.bad_exes.len() == 0,
            0 <= n <= processes.len(),
        ensures
            self.spec_running_processes(processes, own_pid, prefixes, n).wf(),
            self.spec_running_processes(processes, own_pid, prefixes, n) == (StateView {
                new_exes: self.spec_running_processes(processes, own_pid, prefixes, n).new_exes,
                ..self
            }),
            self.spec_running_processes(processes, own_pid, prefixes, n).has_new_exe(path)
                <==> self.has_new_exe(path) || Self::sees(processes, own_pid, prefixes, n, path),
        decreases n,
    {
        if n > 0 {
            self.lemma_first_sightings(processes, own_pid, prefixes, n - 1, path);
            let pre = self.spec_running_processes(processes, own_pid, prefixes, n - 1);
            let process = processes[n - 1];
            if Self::notices(process, own_pid, prefixes) {
                let entry = NewExe { path: process.exe, pid: process.pid };
                assert(pre.find_exe(process.exe@) is None);
                assert(!pre.is_bad(process.exe@));
                pre.lemma_note_new_exe(entry);
                pre.lemma_note_new_exe_paths(entry, path);
                if path == process.exe@ {
                    assert(Self::sees(processes, own_pid, prefixes, n, path));
                }
            }
            if Self::sees(processes, own_pid, prefixes, n - 1, path) {
                let j = choose|j: int|
                    0 <= j < n - 1 && #[trigger] Self::notices(processes[j], own_pid, prefixes)
                        && processes[j].exe@ == path;
                assert(Self::sees(processes, own_pid, prefixes, n, path));
            }
            if Self::sees(processes, own_pid, prefixes, n, path) {
                let j = choose|j: int|
                    0 <= j < n && #[trigger] Self::notices(processes[j], own_pid, prefixes)
                        && processes[j].exe@ == path;
                if j < n - 1 {
                    assert(Self::sees(processes, own_pid, prefixes, n - 1, path));
                }
            }
        }
    }

    /// The first scan of a model that knows nothing notes as seen for the
    /// first time exactly the executables of the processes, other than the
    /// daemon's own, whose paths pass the filter. No executable is known
    /// afterwards, no list is filled, and the time of the scan is the present
    /// time.
    pub proof fn lemma_first_scan(
        self,
        processes: Seq<Process>,
        own_pid: i32,
        prefixes: Option<Seq<String>>,
        path: Seq<char>,
    )
        requires
            self.wf(),
            self.exes.len() == 0,
            self.bad_exes.len() == 0,
            self.new_exes.len() == 0,
        ensures
            self.spec_scan(processes, own_pid, prefixes).exes.len() == 0,
            self.spec_scan(processes, own_pid, prefixes).bad_exes.len() == 0,
            self.spec_scan(processes, own_pid, prefixes).running_exes.len() == 0,
            self.spec_scan(processes, own_pid, prefixes).state_changed_exes.len() == 0,
            self.spec_scan(processes, own_pid, prefixes).last_running_timestamp == self.time,
            self.spec_scan(processes, own_pid, prefixes).has_new_exe(path) <==> Self::sees(
                processes,
                own_pid,
                prefixes,
                processes.len() as int,
                path,
            ),
    {
        assert(self.running_exes.len() == 0) by {
            if self.running_exes.len() > 0 {
                assert(self.running_exes[0] < self.exes.len());
            }
        }
        let cleared = StateView {
            state_changed_exes: Seq::empty(),
            new_running_exes: Seq::empty(),
            ..self
        };
        self.lemma_update_lists(cleared);
        cleared.lemma_first_sightings(processes, own_pid, prefixes, processes.len() as int, path);
        let seen = cleared.spec_running_processes(processes, own_pid, prefixes, processes.len() as int);
        let stamped = StateView { last_running_timestamp: seen.time, ..seen };
        assert(stamped.spec_already_running(self.running_exes, 0) == stamped);
        assert(!cleared.has_new_exe(path));
        let post = self.spec_scan(processes, own_pid, prefixes);
        assert(post.new_exes == seen.new_exes);
        assert(post.has_new_exe(path) <==> seen.has_new_exe(path)) by {
            if post.has_new_exe(path) {
                let k = choose|k: int|
                    0 <= k < post.new_exes.len() && (#[trigger] post.new_exes[k]).path@ == path;
                assert(seen.new_exes[k].path@ == path);
            }
            if seen.has_new_exe(path) {
                let k = choose|k: int|
                    0 <= k < seen.new_exes.len() && (#[trigger] seen.new_exes[k]).path@ == path;
                assert(post.new_exes[k].path@ == path);
            }
        }
    }

    /// Bringing running times up to date keeps the invariant, and changes
    /// nothing of an executable but its running time and nothing of a chain
    /// but its time.
    pub proof fn lemma_accounted(self)
        requires
            self.wf(),
        ensures
            self.spec_accounted().wf(),
            self.spec_accounted().exes.len() == self.exes.len(),
            self.spec_accounted().chains.len() == self.chains.len(),
            self.spec_accounted().bad_exes == self.bad_exes,
            self.spec_accounted().new_exes == self.new_exes,
            self.spec_accounted().maps == self.maps,
            self.spec_accounted().exemaps == self.exemaps,
            forall|path: Seq<char>| #[trigger]
                self.spec_accounted().has_exe(path) == self.has_exe(path),
            self.spec_accounted().pairs_complete() == self.pairs_complete(),
    {
        let post = self.spec_accounted();
        assert forall|x: int| 0 <= x < self.exes.len() implies (#[trigger] post.exes[x]).seq
            == self.exes[x].seq && post.exes[x].path@ == self.exes[x].path@ by {}
        self.lemma_exes_keep(post);
        assert forall|j: int, l: int| 0 <= j < l < post.chains.len() implies !crate::state::same_pair(
            #[trigger] post.chains[j],
            #[trigger] post.chains[l],
        ) by {
            assert(!crate::state::same_pair(self.chains[j], self.chains[l]));
        }
        assert forall|j: int| 0 <= j < post.chains.len() implies {
            &&& (#[trigger] post.chains[j]).wf()
            &&& post.chains[j].a < post.exes.len()
            &&& post.chains[j].b < post.exes.len()
            &&& post.chains[j].a != post.chains[j].b
        } by {
            assert(self.chains[j].wf());
        }
        assert(post.chains_wf());
        self.lemma_wf_frame(post);
        assert forall|path: Seq<char>| #[trigger] post.has_exe(path) == self.has_exe(path) by {
            if self.has_exe(path) {
                let i = choose|i: int|
                    0 <= i < self.exes.len() && (#[trigger] self.exes[i]).path@ == path;
                assert(post.exes[i].path@ == path);
            }
            if post.has_exe(path) {
                let i = choose|i: int|
                    0 <= i < post.exes.len() && (#[trigger] post.exes[i]).path@ == path;
                assert(self.exes[i].path@ == path);
            }
        }
        assert forall|x: int, y: int| #[trigger] post.linked(x, y) == self.linked(x, y) by {
            if self.linked(x, y) {
                let j = choose|j: int|
                    0 <= j < self.chains.len() && #[trigger] crate::state::links(self.chains[j], x, y);
                assert(crate::state::links(post.chains[j], x, y));
            }
            if post.linked(x, y) {
                let j = choose|j: int|
                    0 <= j < post.chains.len() && #[trigger] crate::state::links(post.chains[j], x, y);
                assert(crate::state::links(self.chains[j], x, y));
            }
        }
        if self.pairs_complete() {
            assert forall|x: int, y: int| 0 <= x < y < post.exes.len() implies #[trigger] post.linked(
                x,
                y,
            ) by {
                assert(self.linked(x, y));
            }
        }
        if post.pairs_complete() {
            assert forall|x: int, y: int| 0 <= x < y < self.exes.len() implies #[trigger] self.linked(
                x,
                y,
            ) by {
                assert(post.linked(x, y));
            }
        }
    }

    /// A model update that takes in one executable and no change of state:
    /// afterwards the executable is known, the invariant holds, so that
    /// every use of a region names a registered region, one chain was made
    /// with every executable known before, the executables noted as too
    /// small are as before, and none is left as seen for the first time.
    pub proof fn lemma_update_takes_one(
        self,
        probe: Probe,
        mapprefix: Seq<String>,
        minsize: u64,
        cycle: u32,
    )
        requires
            self.wf(),
            self.state_changed_exes.len() == 0,
            self.takes(probe, minsize),
        ensures
            self.spec_update_model(seq![probe], mapprefix, minsize, cycle).wf(),
            self.spec_update_model(seq![probe], mapprefix, minsize, cycle).has_exe(probe.path@),
            self.spec_update_model(seq![probe], mapprefix, minsize, cycle).exes.len()
                == self.exes.len() + 1,
            self.spec_update_model(seq![probe], mapprefix, minsize, cycle).chains.len()
                == self.chains.len() + self.exes.len(),
            self.spec_update_model(seq![probe], mapprefix, minsize, cycle).bad_exes == self.bad_exes,
            self.spec_update_model(seq![probe], mapprefix, minsize, cycle).new_exes.len() == 0,
            self.pairs_complete() ==> self.spec_update_model(
                seq![probe],
                mapprefix,
                minsize,
                cycle,
            ).pairs_complete(),
    {
        let probes = seq![probe];
        let cleared = StateView { new_exes: Seq::empty(), state_changed_exes: Seq::empty(), ..self };
        self.lemma_wf_frame(cleared);
        self.lemma_pairs_frame(cleared);
        assert(cleared.takes(probe, minsize)) by {
            if cleared.has_exe(probe.path@) {
                let i = choose|i: int|
                    0 <= i < cleared.exes.len() && (#[trigger] cleared.exes[i]).path@ == probe.path@;
                assert(self.exes[i].path@ == probe.path@);
            }
        }
        assert(cleared.spec_new_exes(probes, mapprefix, minsize, cycle, 0) == cleared);
        assert(cleared.spec_new_exes(probes, mapprefix, minsize, cycle, 1) == cleared.spec_new_exe(
            probe,
            mapprefix,
            minsize,
            cycle,
        ));
        cleared.lemma_new_exe_taken(probe, mapprefix, minsize, cycle);
        let taken = cleared.spec_new_exe(probe, mapprefix, minsize, cycle);
        assert(taken.spec_changes(self.state_changed_exes, 0) == taken);
        taken.lemma_accounted();
    }

    /// Noting an executable as seen for the first time keeps the invariant.
    pub proof fn lemma_note_new_exe(self, entry: NewExe)
        requires
            self.wf(),
        ensures
            self.spec_note_new_exe(entry).wf(),
    {
        let post = self.spec_note_new_exe(entry);
        match self.find_new_exe(entry.path@) {
            Some(k) => {
                assert forall|i: int, j: int| 0 <= i < j < post.new_exes.len() implies (
                #[trigger] post.new_exes[i]).path@ != (#[trigger] post.new_exes[j]).path@ by {
                    assert(post.new_exes[i].path@ == self.new_exes[i].path@);
                    assert(post.new_exes[j].path@ == self.new_exes[j].path@);
                }
            },
            None => {
                assert forall|i: int, j: int| 0 <= i < j < post.new_exes.len() implies (
                #[trigger] post.new_exes[i]).path@ != (#[trigger] post.new_exes[j]).path@ by {
                    assert(post.new_exes[i] == self.new_exes[i]);
                    if j < self.new_exes.len() {
                        assert(post.new_exes[j] == self.new_exes[j]);
                    }
                }
            },
        }
        self.lemma_wf_frame(post);
    }

    /// Changing anything but the path and the sequence number of one
    /// executable keeps the invariant.
    pub proof fn lemma_update_exe(self, i: int, exe: Exe)
        requires
            self.wf(),
            0 <= i < self.exes.len(),
            exe.path == self.exes[i].path,
            exe.seq == self.exes[i].seq,
        ensures
            (StateView { exes: self.exes.update(i, exe), ..self }).wf(),
    {
        let post = StateView { exes: self.exes.update(i, exe), ..self };
        assert forall|x: int| 0 <= x < self.exes.len() implies (#[trigger] post.exes[x]).seq
            == self.exes[x].seq && post.exes[x].path@ == self.exes[x].path@ by {}
        self.lemma_exes_keep(post);
        self.lemma_wf_frame(post);
    }

    /// Adding known executables to the lists of running and changed
    /// executables keeps the invariant.
    pub proof fn lemma_update_lists(self, post: StateView)
        requires
            self.wf(),
            post == (StateView {
                running_exes: post.running_exes,
                new_running_exes: post.new_running_exes,
                state_changed_exes: post.state_changed_exes,
                last_running_timestamp: post.last_running_timestamp,
                ..self
            }),
            forall|k: int|
                0 <= k < post.running_exes.len() ==> #[trigger] post.running_exes[k]
                    < self.exes.len(),
            forall|k: int|
                0 <= k < post.new_running_exes.len() ==> #[trigger] post.new_running_exes[k]
                    < self.exes.len(),
            forall|k: int|
                0 <= k < post.state_changed_exes.len() ==> #[trigger] post.state_changed_exes[k]
                    < self.exes.len(),
        ensures
            post.wf(),
    {
        self.lemma_wf_frame(post);
    }

    /// Seeing a process keeps the invariant.
    pub proof fn lemma_running_process(self, pid: i32, path: String)
        requires
            self.wf(),
        ensures
            self.spec_running_process(pid, path).wf(),
            self.spec_running_process(pid, path).exes.len() == self.exes.len(),
            self.spec_running_process(pid, path).time == self.time,
            self.spec_running_process(pid, path).running_exes == self.running_exes,
    {
        match self.find_exe(path@) {
            Some(i) => {
                self.lemma_exes_count(i);
                let exe = self.exes[i];
                let stamped = Exe { running_timestamp: self.time, ..exe };
                self.lemma_update_exe(i, stamped);
                let mid = StateView { exes: self.exes.update(i, stamped), ..self };
                let post = self.spec_running_process(pid, path);
                assert forall|k: int| 0 <= k < post.new_running_exes.len() implies #[trigger] post.new_running_exes[k]
                    < mid.exes.len() by {
                    if k < self.new_running_exes.len() {
                        assert(post.new_running_exes[k] == self.new_running_exes[k]);
                    }
                }
                assert forall|k: int| 0 <= k < post.state_changed_exes.len() implies #[trigger] post.state_changed_exes[k]
                    < mid.exes.len() by {
                    if k < self.state_changed_exes.len() {
                        assert(post.state_changed_exes[k] == self.state_changed_exes[k]);
                    }
                }
                assert forall|k: int| 0 <= k < post.running_exes.len() implies #[trigger] post.running_exes[k]
                    < mid.exes.len() by {
                    assert(self.running_exes[k] < self.exes.len());
                }
                mid.lemma_update_lists(post);
            },
            None => {
                if !self.is_bad(path@) {
                    self.lemma_note_new_exe(NewExe { path, pid });
                }
            },
        }
    }

    /// Seeing processes keeps the invariant.
    pub proof fn lemma_running_processes(
        self,
        processes: Seq<Process>,
        own_pid: i32,
        prefixes: Option<Seq<String>>,
        n: int,
    )
        requires
            self.wf(),
        ensures
            self.spec_running_processes(processes, own_pid, prefixes, n).wf(),
            self.spec_running_processes(processes, own_pid, prefixes, n).exes.len()
                == self.exes.len(),
            self.spec_running_processes(processes, own_pid, prefixes, n).time == self.time,
            self.spec_running_processes(processes, own_pid, prefixes, n).running_exes
                == self.running_exes,
        decreases n,
    {
        if n > 0 {
            self.lemma_running_processes(processes, own_pid, prefixes, n - 1);
            let seen = self.spec_running_processes(processes, own_pid, prefixes, n - 1);
            if Self::notices(processes[n - 1], own_pid, prefixes) {
                seen.lemma_running_process(processes[n - 1].pid, processes[n - 1].exe);
            }
        }
    }

    /// Looking again at executables that were running keeps the invariant.
    pub proof fn lemma_already_running(self, running: Seq<usize>, n: int)
        requires
            self.wf(),
            0 <= n <= running.len(),
            forall|k: int| 0 <= k < running.len() ==> #[trigger] running[k] < self.exes.len(),
        ensures
            self.spec_already_running(running, n).wf(),
            self.spec_already_running(running, n) == (StateView {
                new_running_exes: self.spec_already_running(running, n).new_running_exes,
                state_changed_exes: self.spec_already_running(running, n).state_changed_exes,
                ..self
            }),
        decreases n,
    {
        if n > 0 {
            self.lemma_already_running(running, n - 1);
            let pre = self.spec_already_running(running, n - 1);
            let post = pre.spec_exe_already_running(running[n - 1]);
            assert forall|k: int| 0 <= k < post.new_running_exes.len() implies #[trigger] post.new_running_exes[k]
                < pre.exes.len() by {
                if k < pre.new_running_exes.len() {
                    assert(post.new_running_exes[k] == pre.new_running_exes[k]);
                }
            }
            assert forall|k: int| 0 <= k < post.state_changed_exes.len() implies #[trigger] post.state_changed_exes[k]
                < pre.exes.len() by {
                if k < pre.state_changed_exes.len() {
                    assert(post.state_changed_exes[k] == pre.state_changed_exes[k]);
                }
            }
            assert forall|k: int| 0 <= k < post.running_exes.len() implies #[trigger] post.running_exes[k]
                < pre.exes.len() by {
                assert(pre.running_exes[k] < pre.exes.len());
            }
            pre.lemma_update_lists(post);
        }
    }

    /// A scan keeps the invariant.
    pub proof fn lemma_scan(self, processes: Seq<Process>, own_pid: i32, prefixes: Option<Seq<String>>)
        requires
            self.wf(),
        ensures
            self.spec_scan(processes, own_pid, prefixes).wf(),
    {
        let cleared = StateView {
            state_changed_exes: Seq::empty(),
            new_running_exes: Seq::empty(),
            ..self
        };
        self.lemma_update_lists(cleared);
        cleared.lemma_running_processes(processes, own_pid, prefixes, processes.len() as int);
        let seen = cleared.spec_running_processes(processes, own_pid, prefixes, processes.len() as int);
        let stamped = StateView { last_running_timestamp: seen.time, ..seen };
        seen.lemma_update_lists(stamped);
        stamped.lemma_already_running(self.running_exes, self.running_exes.len() as int);
        let checked = stamped.spec_already_running(self.running_exes, self.running_exes.len() as int);
        let post = StateView { running_exes: checked.new_running_exes, ..checked };
        checked.lemma_update_lists(post);
    }
}

impl State {
    /// Whether the executable with the given path is known to be too small.
    pub fn is_bad(&self, path: &String) -> (r: bool)
        ensures
            r == self@.is_bad(path@),
    {
        let mut k: usize = 0;
        while k < self.bad_exes.len()
            invariant
                k <= self@.bad_exes.len(),
                forall|j: int| 0 <= j < k ==> (#[trigger] self@.bad_exes[j]).path@ != path@,
            decreases self@.bad_exes.len() - k,
        {
            if self.bad_exes[k].path == *path {
                assert(self@.bad_exes[k as int].path@ == path@);
                return true;
            }
            k = k + 1;
        }
        false
    }

    /// Notes `entry` as seen for the first time.
    fn note_new_exe(&mut self, entry: NewExe)
        requires
            old(self).wf(),
        ensures
            final(self)@ == old(self)@.spec_note_new_exe(entry),
            final(self).wf(),
    {
        proof {
            old(self)@.lemma_note_new_exe(entry);
        }
        let mut k: usize = 0;
        while k < self.new_exes.len()
            invariant
                *self == *old(self),
                self.wf(),
                k <= self@.new_exes.len(),
                forall|j: int| 0 <= j < k ==> (#[trigger] self@.new_exes[j]).path@ != entry.path@,
            decreases self@.new_exes.len() - k,
        {
            if self.new_exes[k].path == entry.path {
                proof {
                    assert(self@.new_exes[k as int].path@ == entry.path@);
                    let j = self@.find_new_exe(entry.path@)->Some_0;
                    assert(self@.new_exes[j].path@ == entry.path@);
                    if j < k {
                        assert(self@.new_exes[j].path@ != self@.new_exes[k as int].path@);
                    } else if k < j {
                        assert(self@.new_exes[k as int].path@ != self@.new_exes[j].path@);
                    }
                }
                self.new_exes[k] = entry;
                assert(self@.new_exes =~= old(self)@.spec_note_new_exe(entry).new_exes);
                return ;
            }
            k = k + 1;
        }
        self.new_exes.push(entry);
        assert(self@.new_exes =~= old(self)@.spec_note_new_exe(entry).new_exes);
    }

    /// Notes `entry` as too small to be tracked.
    pub fn note_bad_exe(&mut self, entry: BadExe)
        requires
            old(self).wf(),
        ensures
            final(self)@ == old(self)@.spec_note_bad_exe(entry),
            final(self).wf(),
    {
        proof {
            old(self)@.lemma_note_bad_exe(entry);
        }
        let mut k: usize = 0;
        while k < self.bad_exes.len()
            invariant
                *self == *old(self),
                self.wf(),
                k <= self@.bad_exes.len(),
                forall|j: int| 0 <= j < k ==> (#[trigger] self@.bad_exes[j]).path@ != entry.path@,
            decreases self@.bad_exes.len() - k,
        {
            if self.bad_exes[k].path == entry.path {
                proof {
                    assert(self@.bad_exes[k as int].path@ == entry.path@);
                    let j = self@.find_bad_exe(entry.path@)->Some_0;
                    assert(self@.bad_exes[j].path@ == entry.path@);
                    if j < k {
                        assert(self@.bad_exes[j].path@ != self@.bad_exes[k as int].path@);
                    } else if k < j {
                        assert(self@.bad_exes[k as int].path@ != self@.bad_exes[j].path@);
                    }
                }
                self.bad_exes[k] = entry;
                assert(self@.bad_exes =~= old(self)@.spec_note_bad_exe(entry).bad_exes);
                return ;
            }
            k = k + 1;
        }
        assert(!old(self)@.is_bad(entry.path@));
        self.bad_exes.push(entry);
        assert(self@.bad_exes =~= old(self)@.spec_note_bad_exe(entry).bad_exes);
    }

    /// What becomes of the executable that `probe` found when the model is
    /// reconciled with the probe, for the caller to log.
    pub fn probe_outcome(&self, probe: &Probe, minsize: u64) -> (outcome: ProbeOutcome)
        ensures
            outcome == self@.spec_probe_outcome(*probe, minsize),
            outcome == ProbeOutcome::Taken <==> self@.takes(*probe, minsize),
    {
        let maps = match &probe.maps {
            Some(maps) => maps,
            None => {
                return ProbeOutcome::Unreadable;
            },
        };
        let size = mapped_size(maps);
        if size < minsize {
            ProbeOutcome::TooSmall
        } else if size == 0 {
            ProbeOutcome::Gone
        } else if self.find_exe(&probe.path).is_some() {
            ProbeOutcome::Known
        } else if self.exe_seq == i32::MAX {
            ProbeOutcome::Exhausted
        } else {
            ProbeOutcome::Taken
        }
    }

    /// Reconciles the model with what `probe` found of an executable seen
    /// for the first time, and returns the transitions that the chains made
    /// for it record at once.
    pub fn new_exe_callback(
        &mut self,
        probe: &Probe,
        mapprefix: &[String],
        minsize: u64,
        cycle: u32,
    ) -> (updates: Vec<DwellUpdate>)
        requires
            old(self).wf(),
        ensures
            final(self).wf(),
            final(self)@ == old(self)@.spec_new_exe(*probe, mapprefix@, minsize, cycle),
            updates@ == old(self)@.spec_new_exe_updates(*probe, minsize),
            old(self)@.spec_probe_outcome(*probe, minsize) != ProbeOutcome::Taken && old(self)@.spec_probe_outcome(*probe, minsize) != ProbeOutcome::TooSmall ==> final(self)@
                == old(self)@,
            old(self)@.spec_probe_outcome(*probe, minsize) == ProbeOutcome::Taken ==> final(self)@.has_exe(probe.path@),
            final(self)@.exes.len() >= old(self)@.exes.len(),
            old(self)@.ready() ==> final(self)@.ready(),
            old(self)@.pairs_complete() ==> final(self)@.pairs_complete(),
    {
        proof {
            old(self)@.lemma_probe_outcome(*probe, mapprefix@, minsize, cycle);
            if old(self)@.takes(*probe, minsize) {
                old(self)@.lemma_new_exe_taken(*probe, mapprefix@, minsize, cycle);
            }
        }
        let maps = match &probe.maps {
            Some(maps) => maps,
            None => {
                return Vec::new();
            },
        };
        let (size, regions) = get_maps(maps, mapprefix);
        if size < minsize {
            self.note_bad_exe(BadExe { path: probe.path.clone(), size });
            proof {
                if old(self)@.ready() {
                    old(self)@.lemma_ready_kept(self@);
                }
                old(self)@.lemma_pairs_frame(self@);
            }
            return Vec::new();
        }
        if size == 0 {
            return Vec::new();
        }
        let clock = self.clock();
        let index = self.exes.len();
        let exe = Exe::new(probe.path.clone(), true, 0, &clock);
        let updates = match self.register_exe(exe, true, cycle) {
            Ok(updates) => updates,
            Err(_) => {
                return Vec::new();
            },
        };
        let ghost registered = self@;
        let mut i: usize = 0;
        while i < regions.len()
            invariant
                i <= regions@.len(),
                registered.wf(),
                index < registered.exes.len(),
                self.wf(),
                self@ == registered.spec_map_all(index, regions@, i as int),
                self@.exes.len() == registered.exes.len(),
                registered.ready() ==> self@.ready(),
                registered.pairs_complete() ==> self@.pairs_complete(),
            decreases regions@.len() - i,
        {
            let _ = self.map_exe(index, regions[i].clone(), PROB_ONE);
            i = i + 1;
        }
        let ghost mapped = self@;
        self.running_exes.push(index);
        proof {
            let post = self@;
            assert forall|k: int| 0 <= k < post.running_exes.len() implies #[trigger] post.running_exes[k]
                < mapped.exes.len() by {
                if k < mapped.running_exes.len() {
                    assert(post.running_exes[k] == mapped.running_exes[k]);
                }
            }
            mapped.lemma_update_lists(post);
            if mapped.ready() {
                mapped.lemma_ready_kept(post);
            }
            mapped.lemma_pairs_frame(post);
        }
        updates
    }

    /// Whether the chains of executable `exe` can take in a change of its
    /// state within the limits of their counters.
    pub fn can_change(&self, exe: usize) -> (r: bool)
        requires
            self.wf(),
        ensures
            r == self@.can_change(exe),
    {
        let mut k: usize = 0;
        while k < self.chains.len()
            invariant
                self.wf(),
                k <= self@.chains.len(),
                forall|j: int| 0 <= j < k ==> #[trigger] self@.chain_can_change(exe, j),
            decreases self@.chains.len() - k,
        {
            let chain = &self.chains[k];
            assert(self@.chains[k as int].wf());
            if (chain.a == exe || chain.b == exe) && chain.change_timestamp < self.time
                && chain.weight[chain.state][chain.state] == i32::MAX {
                assert(!self@.chain_can_change(exe, k as int));
                return false;
            }
            k = k + 1;
        }
        true
    }

    /// Takes in that executable `exe` started or stopped running, and
    /// returns the transitions that its chains record.
    pub fn changed_callback(&mut self, exe: usize) -> (updates: Vec<DwellUpdate>)
        requires
            old(self).wf(),
            old(self)@.can_change(exe),
            exe < old(self)@.exes.len(),
        ensures
            final(self).wf(),
            old(self)@.ready() ==> final(self)@.ready(),
            final(self)@ == old(self)@.spec_changed(exe),
            updates@ == old(self)@.spec_changed_updates(exe, old(self)@.chains.len() as int),
            final(self)@.pairs_complete() == old(self)@.pairs_complete(),
    {
        let ghost before = self@;
        let clock = self.clock();
        let now = self.time;
        let mut updates: Vec<DwellUpdate> = Vec::new();
        let mut k: usize = 0;
        while k < self.chains.len()
            invariant
                before == old(self)@,
                before.wf(),
                before.can_change(exe),
                exe < before.exes.len(),
                clock == before.clock(),
                now == before.time,
                k <= self.chains@.len(),
                self.chains@.len() == before.chains.len(),
                forall|j: int| 0 <= j < k ==> #[trigger] self.chains@[j] == before.told_chain(exe, j),
                forall|j: int|
                    0 <= j < k ==> (#[trigger] self.chains@[j]).wf() && self.chains@[j].a
                        == before.chains[j].a && self.chains@[j].b == before.chains[j].b
                        && self.chains@[j].time == before.chains[j].time && ((
                    before.chains[j].has_room() || before.chains[j].change_timestamp >= now) ==> (
                    self.chains@[j].has_room() || self.chains@[j].change_timestamp >= now)),
                forall|j: int|
                    k <= j < self.chains@.len() ==> #[trigger] self.chains@[j] == before.chains[j],
                updates@ == before.spec_changed_updates(exe, k as int),
                self.time == old(self).time,
                self.exes == old(self).exes,
                self.bad_exes == old(self).bad_exes,
                self.maps == old(self).maps,
                self.exemaps == old(self).exemaps,
                self.running_exes == old(self).running_exes,
                self.map_seq == old(self).map_seq,
                self.exe_seq == old(self).exe_seq,
                self.last_running_timestamp == old(self).last_running_timestamp,
                self.last_accounting_timestamp == old(self).last_accounting_timestamp,
                self.dirty == old(self).dirty,
                self.model_dirty == old(self).model_dirty,
                self.memstat == old(self).memstat,
                self.memstat_timestamp == old(self).memstat_timestamp,
                self.state_changed_exes == old(self).state_changed_exes,
                self.new_running_exes == old(self).new_running_exes,
                self.new_exes == old(self).new_exes,
            decreases self.chains@.len() - k,
        {
            let mut chain = self.chains[k];
            assert(chain == before.chains[k as int]);
            assert(chain.wf() && chain.a < before.exes.len() && chain.b < before.exes.len());
            if chain.a == exe || chain.b == exe {
                let current = get_markov_state(
                    self.exes[chain.a].is_running(&clock),
                    self.exes[chain.b].is_running(&clock),
                );
                assert(before.chain_can_change(exe, k as int));
                let transition = chain.state_changed(now, current);
                match transition {
                    Some(transition) => {
                        updates.push(DwellUpdate { chain: k, transition });
                    },
                    None => {},
                }
                assert((before.chains[k as int].has_room() || before.chains[k as int].change_timestamp
                    >= now) ==> (chain.has_room() || chain.change_timestamp >= now)) by {
                    if !before.chains[k as int].transits(now, current as int) {
                        assert(chain == before.chains[k as int]);
                    }
                }
                self.chains[k] = chain;
            }
            k = k + 1;
        }
        self.exes[exe].change_timestamp = now;
        proof {
            let post = before.spec_changed(exe);
            assert(self@.chains =~= post.chains);
            assert(self@.exes =~= post.exes);
            assert(self@ == post);
            before.lemma_update_exe(
                exe as int,
                Exe { change_timestamp: before.time, ..before.exes[exe as int] },
            );
            let mid = StateView { exes: post.exes, ..before };
            assert forall|j: int, l: int| 0 <= j < l < post.chains.len() implies !crate::state::same_pair(
                #[trigger] post.chains[j],
                #[trigger] post.chains[l],
            ) by {
                assert(!crate::state::same_pair(before.chains[j], before.chains[l]));
            }
            assert forall|j: int| 0 <= j < post.chains.len() implies {
                &&& (#[trigger] post.chains[j]).wf()
                &&& post.chains[j].a < post.exes.len()
                &&& post.chains[j].b < post.exes.len()
                &&& post.chains[j].a != post.chains[j].b
            } by {
                assert(self.chains@[j].wf());
                assert(before.chains[j].wf());
            }
            mid.lemma_wf_frame(post);
            if before.ready() {
                assert forall|i: int| 0 <= i < post.exes.len() implies i32::MIN <= (
                #[trigger] post.exes[i]).time + post.period() <= i32::MAX by {
                    assert(i32::MIN <= before.exes[i].time + before.period() <= i32::MAX);
                }
                assert forall|j: int| 0 <= j < post.chains.len() implies {
                    &&& i32::MIN <= (#[trigger] post.chains[j]).time + post.period() <= i32::MAX
                    &&& (post.chains[j].has_room() || post.chains[j].change_timestamp >= post.time)
                } by {
                    assert(self.chains@[j].time == before.chains[j].time);
                    assert(i32::MIN <= before.chains[j].time + before.period() <= i32::MAX);
                    assert(before.chains[j].has_room() || before.chains[j].change_timestamp
                        >= before.time);
                }
            }
            assert forall|x: int, y: int| #[trigger] post.linked(x, y) == before.linked(x, y) by {
                if before.linked(x, y) {
                    let j = choose|j: int|
                        0 <= j < before.chains.len() && #[trigger] crate::state::links(
                            before.chains[j],
                            x,
                            y,
                        );
                    assert(self.chains@[j].a == before.chains[j].a);
                    assert(crate::state::links(post.chains[j], x, y));
                }
                if post.linked(x, y) {
                    let j = choose|j: int|
                        0 <= j < post.chains.len() && #[trigger] crate::state::links(
                            post.chains[j],
                            x,
                            y,
                        );
                    assert(self.chains@[j].a == before.chains[j].a);
                    assert(crate::state::links(before.chains[j], x, y));
                }
            }
            if before.pairs_complete() {
                assert forall|x: int, y: int| 0 <= x < y < post.exes.len() implies #[trigger] post.linked(
                    x,
                    y,
                ) by {
                    assert(before.linked(x, y));
                }
            }
            if post.pairs_complete() {
                assert forall|x: int, y: int| 0 <= x < y < before.exes.len() implies #[trigger] before.linked(
                    x,
                    y,
                ) by {
                    assert(post.linked(x, y));
                }
            }
        }
        updates
    }

    /// Whether running times can be brought up to date within the limits of
    /// their counters.
    pub fn can_account(&self) -> (r: bool)
        ensures
            r == self@.can_account(),
    {
        let period: i64 = self.time as i64 - self.last_accounting_timestamp as i64;
        if period < i32::MIN as i64 || period > i32::MAX as i64 {
            return false;
        }
        let clock = self.clock();
        let mut i: usize = 0;
        while i < self.exes.len()
            invariant
                i <= self@.exes.len(),
                period == self@.period(),
                clock == self@.clock(),
                forall|j: int| 0 <= j < i ==> #[trigger] self@.exe_can_account(j),
            decreases self@.exes.len() - i,
        {
            let sum: i64 = self.exes[i].time as i64 + period;
            if self.exes[i].is_running(&clock) && (sum < i32::MIN as i64 || sum > i32::MAX as i64) {
                assert(!self@.exe_can_account(i as int));
                return false;
            }
            i = i + 1;
        }
        let mut k: usize = 0;
        while k < self.chains.len()
            invariant
                k <= self@.chains.len(),
                period == self@.period(),
                i32::MIN <= self@.period() <= i32::MAX,
                forall|j: int| 0 <= j < self@.exes.len() ==> #[trigger] self@.exe_can_account(j),
                forall|j: int| 0 <= j < k ==> #[trigger] self@.chain_can_account(j),
            decreases self@.chains.len() - k,
        {
            let sum: i64 = self.chains[k].time as i64 + period;
            if self.chains[k].state == 3 && (sum < i32::MIN as i64 || sum > i32::MAX as i64) {
                assert(!self@.chain_can_account(k as int));
                return false;
            }
            k = k + 1;
        }
        true
    }

    /// Brings running times up to date: adds the period since the last time
    /// to the running time of every running executable and to the time of
    /// every chain whose executables both run.
    pub fn account(&mut self)
        requires
            old(self).wf(),
            old(self)@.can_account(),
        ensures
            final(self).wf(),
            final(self)@ == old(self)@.spec_accounted(),
            final(self)@.pairs_complete() == old(self)@.pairs_complete(),
    {
        let ghost before = self@;
        let clock = self.clock();
        let period: i32 = self.time - self.last_accounting_timestamp;
        let mut i: usize = 0;
        while i < self.exes.len()
            invariant
                before == old(self)@,
                before.wf(),
                before.can_account(),
                clock == before.clock(),
                period == before.period(),
                i <= self.exes@.len(),
                self.exes@.len() == before.exes.len(),
                forall|j: int| 0 <= j < i ==> #[trigger] self.exes@[j] == before.spec_accounted().exes[j],
                forall|j: int| i <= j < self.exes@.len() ==> #[trigger] self.exes@[j] == before.exes[j],
                self.time == old(self).time,
                self.chains == old(self).chains,
                self.bad_exes == old(self).bad_exes,
                self.maps == old(self).maps,
                self.exemaps == old(self).exemaps,
                self.running_exes == old(self).running_exes,
                self.map_seq == old(self).map_seq,
                self.exe_seq == old(self).exe_seq,
                self.last_running_timestamp == old(self).last_running_timestamp,
                self.last_accounting_timestamp == old(self).last_accounting_timestamp,
                self.dirty == old(self).dirty,
                self.model_dirty == old(self).model_dirty,
                self.memstat == old(self).memstat,
                self.memstat_timestamp == old(self).memstat_timestamp,
                self.state_changed_exes == old(self).state_changed_exes,
                self.new_running_exes == old(self).new_running_exes,
                self.new_exes == old(self).new_exes,
            decreases self.exes@.len() - i,
        {
            assert(self.exes@[i as int] == before.exes[i as int]);
            assert(before.exe_can_account(i as int));
            self.exes[i].running_inc_time(period, &clock);
            i = i + 1;
        }
        let mut k: usize = 0;
        while k < self.chains.len()
            invariant
                before == old(self)@,
                before.wf(),
                before.can_account(),
                period == before.period(),
                k <= self.chains@.len(),
                self.chains@.len() == before.chains.len(),
                forall|j: int|
                    0 <= j < k ==> #[trigger] self.chains@[j] == before.spec_accounted().chains[j],
                forall|j: int|
                    k <= j < self.chains@.len() ==> #[trigger] self.chains@[j] == before.chains[j],
                self.exes@ =~= before.spec_accounted().exes,
                self.time == old(self).time,
                self.bad_exes == old(self).bad_exes,
                self.maps == old(self).maps,
                self.exemaps == old(self).exemaps,
                self.running_exes == old(self).running_exes,
                self.map_seq == old(self).map_seq,
                self.exe_seq == old(self).exe_seq,
                self.last_running_timestamp == old(self).last_running_timestamp,
                self.last_accounting_timestamp == old(self).last_accounting_timestamp,
                self.dirty == old(self).dirty,
                self.model_dirty == old(self).model_dirty,
                self.memstat == old(self).memstat,
                self.memstat_timestamp == old(self).memstat_timestamp,
                self.state_changed_exes == old(self).state_changed_exes,
                self.new_running_exes == old(self).new_running_exes,
                self.new_exes == old(self).new_exes,
            decreases self.chains@.len() - k,
        {
            assert(self.chains@[k as int] == before.chains[k as int]);
            assert(before.chain_can_account(k as int));
            self.chains[k].running_inc_time(period);
            k = k + 1;
        }
        self.last_accounting_timestamp = self.time;
        proof {
            let post = before.spec_accounted();
            assert(self@.chains =~= post.chains);
            assert(self@ == post);
            assert forall|x: int| 0 <= x < before.exes.len() implies (#[trigger] post.exes[x]).seq
                == before.exes[x].seq && post.exes[x].path@ == before.exes[x].path@ by {}
            before.lemma_exes_keep(post);
            assert forall|j: int, l: int| 0 <= j < l < post.chains.len() implies !crate::state::same_pair(
                #[trigger] post.chains[j],
                #[trigger] post.chains[l],
            ) by {
                assert(!crate::state::same_pair(before.chains[j], before.chains[l]));
            }
            assert forall|j: int| 0 <= j < post.chains.len() implies {
                &&& (#[trigger] post.chains[j]).wf()
                &&& post.chains[j].a < post.exes.len()
                &&& post.chains[j].b < post.exes.len()
                &&& post.chains[j].a != post.chains[j].b
            } by {
                assert(before.chains[j].wf());
            }
            before.lemma_wf_frame(post);
            assert forall|x: int, y: int| #[trigger] post.linked(x, y) == before.linked(x, y) by {
                if before.linked(x, y) {
                    let j = choose|j: int|
                        0 <= j < before.chains.len() && #[trigger] crate::state::links(
                            before.chains[j],
                            x,
                            y,
                        );
                    assert(crate::state::links(post.chains[j], x, y));
                }
                if post.linked(x, y) {
                    let j = choose|j: int|
                        0 <= j < post.chains.len() && #[trigger] crate::state::links(
                            post.chains[j],
                            x,
                            y,
                        );
                    assert(crate::state::links(before.chains[j], x, y));
                }
            }
            if before.pairs_complete() {
                assert forall|x: int, y: int| 0 <= x < y < post.exes.len() implies #[trigger] post.linked(
                    x,
                    y,
                ) by {
                    assert(before.linked(x, y));
                }
            }
            if post.pairs_complete() {
                assert forall|x: int, y: int| 0 <= x < y < before.exes.len() implies #[trigger] before.linked(
                    x,
                    y,
                ) by {
                    assert(post.linked(x, y));
                }
            }
        }
    }

    /// Takes in that a process `pid` runs the executable at `path`.
    pub fn running_process_callback(&mut self, pid: i32, path: &String)
        requires
            old(self).wf(),
        ensures
            final(self)@ == old(self)@.spec_running_process(pid, *path),
            final(self).wf(),
    {
        proof {
            old(self)@.lemma_running_process(pid, *path);
        }
        match self.find_exe(path) {
            Some(i) => {
                let clock = self.clock();
                if !self.exes[i].is_running(&clock) {
                    self.new_running_exes.push(i);
                    self.state_changed_exes.push(i);
                }
                self.exes[i].running_timestamp = self.time;
                proof {
                    let post = old(self)@.spec_running_process(pid, *path);
                    assert(self@.exes =~= post.exes);
                    assert(self@.new_running_exes =~= post.new_running_exes);
                    assert(self@.state_changed_exes =~= post.state_changed_exes);
                }
            },
            None => {
                if !self.is_bad(path) {
                    self.note_new_exe(NewExe { path: path.clone(), pid });
                }
            },
        }
    }

    /// Looks again at executable `exe`, which was running at the scan
    /// before.
    pub fn exe_already_running_callback(&mut self, exe: usize)
        requires
            old(self).wf(),
            exe < old(self)@.exes.len(),
        ensures
            final(self)@ == old(self)@.spec_exe_already_running(exe),
    {
        let clock = self.clock();
        if self.exes[exe].is_running(&clock) {
            self.new_running_exes.push(exe);
        } else {
            self.state_changed_exes.push(exe);
        }
    }
}

/// Takes in a scan of the process table: which executables started running,
/// which are not running any more, and which new ones are around.
///
/// `processes` are the processes found, `own_pid` is the daemon's own process,
/// which is passed over, and `prefixes` is the filter for executables.
pub fn scan(state: &mut State, processes: &Vec<Process>, own_pid: i32, prefixes: Option<&[String]>)
    requires
        old(state).wf(),
    ensures
        final(state).wf(),
        final(state)@ == old(state)@.spec_scan(
            processes@,
            own_pid,
            match prefixes {
                Some(rules) => Some(rules@),
                None => None,
            },
        ),
{
    let ghost rules = match prefixes {
        Some(rules) => Some(rules@),
        None => None,
    };
    proof {
        old(state)@.lemma_scan(processes@, own_pid, rules);
    }
    state.state_changed_exes.clear();
    state.new_running_exes.clear();
    let ghost cleared = state@;
    proof {
        old(state)@.lemma_update_lists(cleared);
    }
    let mut i: usize = 0;
    while i < processes.len()
        invariant
            i <= processes@.len(),
            cleared.wf(),
            rules == (match prefixes {
                Some(rules) => Some(rules@),
                None => None,
            }),
            state@ == cleared.spec_running_processes(processes@, own_pid, rules, i as int),
            state.wf(),
        decreases processes@.len() - i,
    {
        let process = &processes[i];
        if process.pid != own_pid && accept_file(process.exe.as_str(), prefixes) {
            state.running_process_callback(process.pid, &process.exe);
        }
        i = i + 1;
    }
    state.last_running_timestamp = state.time;
    let ghost stamped = state@;
    let mut running: Vec<usize> = Vec::new();
    std::mem::swap(&mut running, &mut state.running_exes);
    proof {
        cleared.lemma_running_processes(processes@, own_pid, rules, processes@.len() as int);
        let seen = cleared.spec_running_processes(processes@, own_pid, rules, processes@.len() as int);
        seen.lemma_update_lists(stamped);
        stamped.lemma_already_running(running@, running@.len() as int);
    }
    let mut k: usize = 0;
    while k < running.len()
        invariant
            k <= running@.len(),
            stamped.wf(),
            running@ == stamped.running_exes,
            forall|j: int| 0 <= j < running@.len() ==> #[trigger] running@[j] < stamped.exes.len(),
            state@ == (StateView {
                running_exes: Seq::empty(),
                ..stamped.spec_already_running(running@, k as int)
            }),
        decreases running@.len() - k,
    {
        proof {
            stamped.lemma_already_running(running@, k as int);
            let pre = stamped.spec_already_running(running@, k as int);
            assert(pre.lists_wf());
            pre.lemma_update_lists(state@);
        }
        state.exe_already_running_callback(running[k]);
        k = k + 1;
    }
    state.running_exes = state.new_running_exes.clone();
}

/// Updates the model after a scan.
///
/// The model is reconciled with `probes`, the probes of the executables seen
/// for the first time. Then every executable that started or stopped running
/// is stamped, and its chains record the transition. Last, running times are
/// brought up to date. The transitions that chains recorded are returned, for
/// the caller to fold into the mean dwell times.
pub fn update_model(
    state: &mut State,
    probes: &Vec<Probe>,
    mapprefix: &[String],
    minsize: u64,
    cycle: u32,
) -> (updates: Vec<DwellUpdate>)
    requires
        old(state).wf(),
        old(state)@.ready(),
    ensures
        final(state).wf(),
        final(state)@ == old(state)@.spec_update_model(probes@, mapprefix@, minsize, cycle),
        updates@ == old(state)@.spec_update_model_updates(probes@, mapprefix@, minsize, cycle),
        old(state)@.pairs_complete() ==> final(state)@.pairs_complete(),
        final(state)@.new_exes.len() == 0,
        final(state)@.state_changed_exes.len() == 0,
        final(state)@.last_accounting_timestamp == old(state)@.time,
{
    proof {
        old(state)@.lemma_update_model_forgets(probes@, mapprefix@, minsize, cycle);
    }
    let mut changed: Vec<usize> = Vec::new();
    std::mem::swap(&mut changed, &mut state.state_changed_exes);
    state.new_exes.clear();
    let ghost cleared = state@;
    proof {
        assert(cleared == (StateView {
            new_exes: Seq::empty(),
            state_changed_exes: Seq::empty(),
            ..old(state)@
        }));
        old(state)@.lemma_wf_frame(cleared);
        old(state)@.lemma_ready_kept(cleared);
        old(state)@.lemma_pairs_frame(cleared);
        assert(old(state)@.lists_wf());
        assert(changed@ == old(state)@.state_changed_exes);
        assert forall|j: int| 0 <= j < changed@.len() implies #[trigger] changed@[j]
            < cleared.exes.len() by {
            assert(old(state)@.state_changed_exes[j] < old(state)@.exes.len());
        }
    }
    let mut updates: Vec<DwellUpdate> = Vec::new();
    let mut i: usize = 0;
    while i < probes.len()
        invariant
            i <= probes@.len(),
            state.wf(),
            state@.ready(),
            cleared.pairs_complete() ==> state@.pairs_complete(),
            state@ == cleared.spec_new_exes(probes@, mapprefix@, minsize, cycle, i as int),
            updates@ == cleared.spec_new_exes_updates(probes@, mapprefix@, minsize, cycle, i as int),
            state@.exes.len() >= cleared.exes.len(),
            changed@ == old(state)@.state_changed_exes,
            forall|j: int| 0 <= j < changed@.len() ==> #[trigger] changed@[j] < cleared.exes.len(),
        decreases probes@.len() - i,
    {
        let mut more = state.new_exe_callback(&probes[i], mapprefix, minsize, cycle);
        updates.append(&mut more);
        i = i + 1;
    }
    let ghost reconciled = state@;
    let mut k: usize = 0;
    while k < changed.len()
        invariant
            k <= changed@.len(),
            changed@ == old(state)@.state_changed_exes,
            forall|j: int| 0 <= j < changed@.len() ==> #[trigger] changed@[j] < reconciled.exes.len(),
            state.wf(),
            state@.ready(),
            state@.pairs_complete() == reconciled.pairs_complete(),
            state@.exes.len() == reconciled.exes.len(),
            state@ == reconciled.spec_changes(changed@, k as int),
            updates@ == cleared.spec_new_exes_updates(
                probes@,
                mapprefix@,
                minsize,
                cycle,
                probes@.len() as int,
            ) + reconciled.spec_changes_updates(changed@, k as int),
        decreases changed@.len() - k,
    {
        proof {
            state@.lemma_ready_can_change(changed@[k as int]);
        }
        let mut more = state.changed_callback(changed[k]);
        updates.append(&mut more);
        k = k + 1;
    }
    proof {
        state@.lemma_ready_can_account();
    }
    state.account();
    updates
}

} // verus!
