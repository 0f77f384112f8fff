use rustload::common::Failure;
use rustload::event::{autosave, on_signal, tick, tick2, Flow, Signal, SignalAction};
use rustload::logging::{level_from_options, level_from_verbosity, logs_to_stderr, LevelFilter};
use rustload::model::{default_prefix_rules, Config, Model, SortStrategy, System};
use rustload::state::State;

#[test]
fn sort_strategy_from_number() {
    assert_eq!(SortStrategy::try_from(0), Ok(SortStrategy::Unsorted));
    assert_eq!(SortStrategy::try_from(1), Ok(SortStrategy::Path));
    assert_eq!(SortStrategy::try_from(2), Ok(SortStrategy::Inode));
    assert_eq!(SortStrategy::try_from(3), Ok(SortStrategy::Block));
    assert_eq!(SortStrategy::try_from(4), Err(Failure::InvalidSetting));
    assert_eq!(SortStrategy::try_from(255), Err(Failure::InvalidSetting));
    for n in 0..4u8 {
        assert_eq!(SortStrategy::try_from(n).unwrap().number(), n);
    }
}

#[test]
fn default_configuration() {
    let config = Config::default();
    assert_eq!(
        config.model,
        Model {
            cycle: 20,
            usecorrelation: true,
            minsize: 2_000_000,
            memtotal: -10,
            memfree: 50,
            memcached: 0
        }
    );
    assert!(config.system.doscan);
    assert!(config.system.dopredict);
    assert_eq!(config.system.autosave, 3600);
    assert_eq!(config.system.processes, 30);
    assert_eq!(config.system.sortstrategy, 3);
    let rules = vec!["/opt", "!/usr/sbin/", "!/usr/local/sbin/", "/usr/", "!/"];
    assert_eq!(config.system.mapprefix, rules);
    assert_eq!(config.system.exeprefix, rules);
    assert_eq!(default_prefix_rules(), rules);
    assert_eq!(config.system.sort_strategy(), SortStrategy::Block);
}

#[test]
fn an_unknown_sort_strategy_falls_back_to_block() {
    let mut system = System::default();
    system.sortstrategy = 9;
    assert_eq!(system.sort_strategy(), SortStrategy::Block);
    system.sortstrategy = 1;
    assert_eq!(system.sort_strategy(), SortStrategy::Path);
}

#[test]
fn verbosity_levels() {
    assert_eq!(level_from_verbosity(0), LevelFilter::Off);
    assert_eq!(level_from_verbosity(1), LevelFilter::Error);
    assert_eq!(level_from_verbosity(2), LevelFilter::Warn);
    assert_eq!(level_from_verbosity(3), LevelFilter::Info);
    assert_eq!(level_from_verbosity(4), LevelFilter::Debug);
    assert_eq!(level_from_verbosity(5), LevelFilter::Trace);
    assert_eq!(level_from_verbosity(9), LevelFilter::Trace);
    assert_eq!(level_from_verbosity(-1), LevelFilter::Trace);
    assert_eq!(level_from_verbosity(i32::MAX), LevelFilter::Trace);
}

#[test]
fn levels_from_the_command_line() {
    assert_eq!(level_from_options(true, false, 4), LevelFilter::Off);
    assert_eq!(level_from_options(true, true, 4), LevelFilter::Off);
    assert_eq!(level_from_options(false, true, 0), LevelFilter::Trace);
    assert_eq!(level_from_options(false, false, 2), LevelFilter::Warn);
    assert!(logs_to_stderr("", false));
    assert!(logs_to_stderr("/var/log/x.log", true));
    assert!(!logs_to_stderr("/var/log/x.log", false));
}

#[test]
fn signals() {
    assert_eq!(on_signal(Signal::Hangup), SignalAction::ReloadConfig);
    assert_eq!(on_signal(Signal::User1), SignalAction::DumpLog);
    assert_eq!(on_signal(Signal::User2), SignalAction::SaveAndStop);
    assert_eq!(on_signal(Signal::Terminate), SignalAction::Stop);
    assert_eq!(on_signal(Signal::Interrupt), SignalAction::Stop);
    assert_eq!(on_signal(Signal::Quit), SignalAction::Stop);
}

#[test]
fn timers() {
    let config = Config::default();
    let t = tick(&config.model, &config.system);
    assert!(t.scan && t.predict);
    assert_eq!(t.advance, 10);
    assert_eq!(t.delay, 11);
    let mut state = State::new();
    let t2 = tick2(&state, &config.model);
    assert!(!t2.update);
    assert_eq!(t2.advance, 10);
    assert_eq!(t2.delay, 10);
    state.mark_scanned();
    assert!(state.dirty && state.model_dirty);
    assert!(tick2(&state, &config.model).update);
    assert_eq!(autosave(true, &config.system), Flow::Again(3600));
    assert_eq!(autosave(false, &config.system), Flow::Stop);
}

#[test]
fn timers_with_an_odd_cycle_and_at_the_limits() {
    let mut model = Model::default();
    let mut system = System::default();
    system.doscan = false;
    model.cycle = 21;
    let t = tick(&model, &system);
    assert!(!t.scan && t.predict);
    assert_eq!(t.advance, 11);
    assert_eq!(t.delay, 11);
    let t2 = tick2(&State::new(), &model);
    assert_eq!(t2.advance, 10);
    assert_eq!(t2.delay, 10);
    model.cycle = u32::MAX;
    let t = tick(&model, &system);
    assert_eq!(t.advance, 1 << 31);
    assert_eq!(t.delay, 1 << 31);
    model.cycle = 0;
    let t = tick(&model, &system);
    assert_eq!(t.advance, 0);
    assert_eq!(t.delay, 1);
}

#[test]
fn time_moves_on() {
    let mut state = State::new();
    assert!(state.can_advance(10));
    state.advance(10);
    state.advance(11);
    assert_eq!(state.time, 21);
    assert!(state.can_advance(i32::MAX as u32 - 21));
    assert!(!state.can_advance(i32::MAX as u32 - 20));
    assert!(!state.can_advance(u32::MAX));
    state.advance(i32::MAX as u32 - 21);
    assert_eq!(state.time, i32::MAX);
}
