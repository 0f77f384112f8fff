//! How loud the daemon is.

use vstd::prelude::*;

verus! {

/// The most verbose level of messages that is logged.
#[derive(Clone, Copy, Debug, PartialEq, Eq, Structural)]
pub enum LevelFilter {
    Off,
    Error,
    Warn,
    Info,
    Debug,
    Trace,
}

/// The level for a verbosity: 0 is off, 1 to 4 are errors, warnings,
/// information and debugging, and everything else is tracing.
pub open spec fn spec_level_from_verbosity(verbosity: i32) -> LevelFilter {
    match verbosity {
        0 => LevelFilter::Off,
        1 => LevelFilter::Error,
        2 => LevelFilter::Warn,
        3 => LevelFilter::Info,
        4 => LevelFilter::Debug,
        _ => LevelFilter::Trace,
    }
}

/// The level for a verbosity.
pub fn level_from_verbosity(verbosity: i32) -> (level: LevelFilter)
    ensures
        level == spec_level_from_verbosity(verbosity),
{
    match verbosity {
        0 => LevelFilter::Off,
        1 => LevelFilter::Error,
        2 => LevelFilter::Warn,
        3 => LevelFilter::Info,
        4 => LevelFilter::Debug,
        _ => LevelFilter::Trace,
    }
}

/// The verbosity that is tracing under any reading of the scale.
pub const DEBUG_VERBOSITY: i32 = 9;

/// The level that the command line asks for: off where it asks for quiet,
/// tracing where it asks for debugging, and the level of the verbosity it
/// gives otherwise.
pub fn level_from_options(quiet: bool, debug: bool, verbosity: i32) -> (level: LevelFilter)
    ensures
        level == (if quiet {
            LevelFilter::Off
        } else if debug {
            LevelFilter::Trace
        } else {
            spec_level_from_verbosity(verbosity)
        }),
{
    level_from_verbosity(
        if quiet {
            0
        } else if debug {
            DEBUG_VERBOSITY
        } else {
            verbosity
        },
    )
}

/// Whether messages go to the standard error stream rather than to a file:
/// they do where no log file is named, and where debugging is asked for.
pub fn logs_to_stderr(logfile: &str, debug: bool) -> (r: bool)
    ensures
        r == (logfile@.len() == 0 || debug),
{
    logfile.is_empty() || debug
}

} // verus!
