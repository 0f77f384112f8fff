//! The configuration of the daemon.

use crate::common::Failure;
use vstd::prelude::*;

verus! {

/// Configuration of the model that predictions are made from.
#[derive(Clone, Copy, Debug, PartialEq, Eq)]
pub struct Model {
    /// The quantum of time: data is gathered and predictions are made
    /// once in every cycle, in seconds.
    pub cycle: u32,
    /// Whether the correlation coefficient is used in the prediction.
    pub usecorrelation: bool,
    /// Minimum sum of the lengths of the mappings of a process for the
    /// application to be tracked, in bytes.
    pub minsize: u32,
    /// Percentage of the total memory that may be used for read-ahead.
    pub memtotal: i32,
    /// Percentage of the free memory that may be used for read-ahead.
    pub memfree: i32,
    /// Percentage of the cached memory that may be used for read-ahead.
    pub memcached: i32,
}

/// How the daemon interacts with the system.
#[derive(Debug)]
pub struct System {
    /// Whether running processes are monitored and the model is updated.
    pub doscan: bool,
    /// Whether predictions are made and files are read ahead.
    pub dopredict: bool,
    /// Period after which the state is saved, in seconds.
    pub autosave: u32,
    /// Prefix rules that decide which mapped files are considered.
    pub mapprefix: Vec<String>,
    /// Prefix rules that decide which executables are considered.
    pub exeprefix: Vec<String>,
    /// Largest number of read-ahead requests that are worked on at once.
    pub processes: u32,
    /// The order in which files are read ahead, as a number.
    pub sortstrategy: u8,
}

/// The whole configuration.
#[derive(Debug)]
pub struct Config {
    pub model: Model,
    pub system: System,
}

/// The order in which files are read ahead.
#[derive(Clone, Copy, Debug, PartialEq, Eq, Structural)]
pub enum SortStrategy {
    /// As the prediction ranks them.
    Unsorted,
    /// By path.
    Path,
    /// By inode number.
    Inode,
    /// By disk block.
    Block,
}

impl SortStrategy {
    /// The strategy with the given number.
    pub open spec fn spec_try_from(value: u8) -> Result<SortStrategy, Failure> {
        match value {
            0 => Ok(SortStrategy::Unsorted),
            1 => Ok(SortStrategy::Path),
            2 => Ok(SortStrategy::Inode),
            3 => Ok(SortStrategy::Block),
            _ => Err(Failure::InvalidSetting),
        }
    }

    /// The number of the strategy.
    pub open spec fn spec_number(&self) -> u8 {
        match self {
            SortStrategy::Unsorted => 0,
            SortStrategy::Path => 1,
            SortStrategy::Inode => 2,
            SortStrategy::Block => 3,
        }
    }

    /// The strategy with the given number; numbers above 3 name none.
    pub fn try_from(value: u8) -> (r: Result<SortStrategy, Failure>)
        ensures
            r == Self::spec_try_from(value),
            r is Ok <==> value <= 3,
            r is Ok ==> r->Ok_0.spec_number() == value,
    {
        match value {
            0 => Ok(SortStrategy::Unsorted),
            1 => Ok(SortStrategy::Path),
            2 => Ok(SortStrategy::Inode),
            3 => Ok(SortStrategy::Block),
            _ => Err(Failure::InvalidSetting),
        }
    }

    /// The number of the strategy.
    pub fn number(&self) -> (n: u8)
        ensures
            n == self.spec_number(),
            Self::spec_try_from(n) == Ok::<SortStrategy, Failure>(*self),
    {
        match self {
            SortStrategy::Unsorted => 0,
            SortStrategy::Path => 1,
            SortStrategy::Inode => 2,
            SortStrategy::Block => 3,
        }
    }
}

/// The prefix rules that are in force where none are configured.
pub open spec fn default_prefixes() -> Seq<Seq<char>> {
    seq!["/opt"@, "!/usr/sbin/"@, "!/usr/local/sbin/"@, "/usr/"@, "!/"@]
}

/// The prefix rules that are in force where none are configured.
pub fn default_prefix_rules() -> (rules: Vec<String>)
    ensures
        rules@.len() == 5,
        forall|i: int| 0 <= i < 5 ==> (#[trigger] rules@[i])@ == default_prefixes()[i],
{
    let mut rules: Vec<String> = Vec::new();
    rules.push("/opt".to_owned());
    rules.push("!/usr/sbin/".to_owned());
    rules.push("!/usr/local/sbin/".to_owned());
    rules.push("/usr/".to_owned());
    rules.push("!/".to_owned());
    rules
}

impl Model {
    /// The settings that are in force where none are configured.
    pub open spec fn spec_default() -> Model {
        Model {
            cycle: 20,
            usecorrelation: true,
            minsize: 2_000_000,
            memtotal: -10i32,
            memfree: 50,
            memcached: 0,
        }
    }
}

impl Default for Model {
    fn default() -> (m: Self)
        ensures
            m == Model::spec_default(),
    {
        Model {
            cycle: 20,
            usecorrelation: true,
            minsize: 2_000_000,
            memtotal: -10,
            memfree: 50,
            memcached: 0,
        }
    }
}

impl System {
    /// The strategy that the configuration names, or [`SortStrategy::Block`]
    /// where it names none.
    pub fn sort_strategy(&self) -> (s: SortStrategy)
        ensures
            s == (match SortStrategy::spec_try_from(self.sortstrategy) {
                Ok(s) => s,
                Err(_) => SortStrategy::Block,
            }),
    {
        match SortStrategy::try_from(self.sortstrategy) {
            Ok(s) => s,
            Err(_) => SortStrategy::Block,
        }
    }
}

impl Default for System {
    fn default() -> (s: Self)
        ensures
            s.doscan,
            s.dopredict,
            s.autosave == 3600,
            s.processes == 30,
            s.sortstrategy == 3,
            s.mapprefix@.len() == 5,
            s.exeprefix@.len() == 5,
            forall|i: int| 0 <= i < 5 ==> (#[trigger] s.mapprefix@[i])@ == default_prefixes()[i],
            forall|i: int| 0 <= i < 5 ==> (#[trigger] s.exeprefix@[i])@ == default_prefixes()[i],
    {
        System {
            doscan: true,
            dopredict: true,
            autosave: 3600,
            mapprefix: default_prefix_rules(),
            exeprefix: default_prefix_rules(),
            processes: 30,
            sortstrategy: 3,
        }
    }
}

impl Default for Config {
    fn default() -> (c: Self)
        ensures
            c.model == Model::spec_default(),
            c.system.doscan,
            c.system.dopredict,
            c.system.autosave == 3600,
            c.system.processes == 30,
            c.system.sortstrategy == 3,
            c.system.mapprefix@.len() == 5,
            c.system.exeprefix@.len() == 5,
            forall|i: int|
                0 <= i < 5 ==> (#[trigger] c.system.mapprefix@[i])@ == default_prefixes()[i],
            forall|i: int|
                0 <= i < 5 ==> (#[trigger] c.system.exeprefix@[i])@ == default_prefixes()[i],
    {
        Config { model: Model::default(), system: System::default() }
    }
}

} // verus!
