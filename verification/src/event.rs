//! The decisions of the event loop: what a signal asks for, and what each of
//! the three timers does and when it fires next.

use crate::model::{Model, System};
use crate::state::{State, StateView};
use vstd::prelude::*;

verus! {

/// The signals that the daemon listens for.
#[derive(Clone, Copy, Debug, PartialEq, Eq, Structural)]
pub enum Signal {
    Hangup,
    Interrupt,
    Quit,
    Terminate,
    User1,
    User2,
}

/// What a signal asks of the daemon.
#[derive(Clone, Copy, Debug, PartialEq, Eq, Structural)]
pub enum SignalAction {
    /// Read the configuration again, and keep the present one where that
    /// fails.
    ReloadConfig,
    /// Log the statistics of the model and the configuration.
    DumpLog,
    /// Save the state, then stop.
    SaveAndStop,
    /// Stop.
    Stop,
}

/// What the loop does next.
#[derive(Clone, Copy, Debug, PartialEq, Eq, Structural)]
pub enum Flow {
    /// Arm the timer again to fire after this many seconds.
    Again(u64),
    /// Stop the loop.
    Stop,
}

/// What the scan-and-predict timer does when it fires.
#[derive(Clone, Copy, Debug, PartialEq, Eq)]
pub struct ScanTick {
    /// Whether the process table is scanned.
    pub scan: bool,
    /// Whether a prediction is made.
    pub predict: bool,
    /// Seconds by which the model's time moves on afterwards.
    pub advance: u32,
    /// Seconds after which the timer fires again.
    pub delay: u64,
}

/// What the model-update timer does when it fires.
#[derive(Clone, Copy, Debug, PartialEq, Eq)]
pub struct ModelTick {
    /// Whether the model is updated.
    pub update: bool,
    /// Seconds by which the model's time moves on afterwards.
    pub advance: u32,
    /// Seconds after which the timer fires again.
    pub delay: u64,
}

/// What `signal` asks for: a hangup reloads the configuration, the first
/// user signal dumps the log, the second saves and stops, and every other
/// signal stops.
pub open spec fn spec_on_signal(signal: Signal) -> SignalAction {
    match signal {
        Signal::Hangup => SignalAction::ReloadConfig,
        Signal::User1 => SignalAction::DumpLog,
        Signal::User2 => SignalAction::SaveAndStop,
        Signal::Interrupt | Signal::Quit | Signal::Terminate => SignalAction::Stop,
    }
}

/// What `signal` asks for.
pub fn on_signal(signal: Signal) -> (action: SignalAction)
    ensures
        action == spec_on_signal(signal),
{
    match signal {
        Signal::Hangup => SignalAction::ReloadConfig,
        Signal::User1 => SignalAction::DumpLog,
        Signal::User2 => SignalAction::SaveAndStop,
        Signal::Interrupt | Signal::Quit | Signal::Terminate => SignalAction::Stop,
    }
}

/// What follows an automatic save: the timer is armed again after the
/// autosave period, unless the save failed, which stops the loop.
pub fn autosave(saved: bool, system: &System) -> (flow: Flow)
    ensures
        flow == (if saved {
            Flow::Again(system.autosave as u64)
        } else {
            Flow::Stop
        }),
{
    if saved {
        Flow::Again(system.autosave as u64)
    } else {
        Flow::Stop
    }
}

/// What the scan-and-predict timer does: it scans and predicts as the
/// configuration says, moves time on by half a cycle, rounded up, and fires
/// again after half of a cycle and a second, rounded up.
pub fn tick(model: &Model, system: &System) -> (t: ScanTick)
    ensures
        t.scan == system.doscan,
        t.predict == system.dopredict,
        t.advance == (model.cycle + 1) / 2,
        t.delay == (model.cycle + 2) / 2,
{
    ScanTick {
        scan: system.doscan,
        predict: system.dopredict,
        advance: model.cycle / 2 + model.cycle % 2,
        delay: model.cycle as u64 / 2 + 1,
    }
}

/// What the model-update timer does: it updates the model where a scan has
/// been made since the last update, moves time on by half a cycle, rounded
/// down, and fires again after as many seconds.
pub fn tick2(state: &State, model: &Model) -> (t: ModelTick)
    ensures
        t.update == state@.model_dirty,
        t.advance == model.cycle / 2,
        t.delay == model.cycle / 2,
{
    ModelTick { update: state.model_dirty, advance: model.cycle / 2, delay: model.cycle as u64 / 2 }
}

impl State {
    /// Whether the model's time can move on by `seconds`.
    pub fn can_advance(&self, seconds: u32) -> (r: bool)
        ensures
            r == (self@.time + seconds <= i32::MAX),
    {
        self.time as i64 + seconds as i64 <= i32::MAX as i64
    }

    /// Moves the model's time on by `seconds`.
    pub fn advance(&mut self, seconds: u32)
        requires
            old(self).wf(),
            old(self)@.time + seconds <= i32::MAX,
        ensures
            final(self).wf(),
            final(self)@ == (StateView { time: (old(self)@.time + seconds) as i32, ..old(self)@ }),
    {
        self.time = (self.time as i64 + seconds as i64) as i32;
        proof {
            let post = self@;
            old(self)@.lemma_wf_frame(post);
        }
    }

    /// Notes that a scan has been made: the state differs from what was
    /// saved, and the model has a scan to take in.
    pub fn mark_scanned(&mut self)
        requires
            old(self).wf(),
        ensures
            final(self).wf(),
            final(self)@ == (StateView { dirty: true, model_dirty: true, ..old(self)@ }),
    {
        self.dirty = true;
        self.model_dirty = true;
        proof {
            let post = self@;
            old(self)@.lemma_wf_frame(post);
        }
    }
}

} // verus!
