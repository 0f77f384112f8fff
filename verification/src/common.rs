//! Small items shared by the whole crate.

use vstd::prelude::*;

verus! {

/// Number of bytes in a kibibyte.
pub const KIB: u64 = 1024;

/// Converts bytes to whole kibibytes, rounding down.
pub fn kb(v: u64) -> (r: u64)
    ensures
        r == v / KIB,
{
    v / KIB
}

/// The sum of two sizes, capped at the largest size there is.
pub open spec fn capped_sum(a: u64, b: u64) -> u64 {
    if a + b > u64::MAX {
        u64::MAX
    } else {
        (a + b) as u64
    }
}

/// The sum of two sizes, capped at the largest size there is.
pub fn capped_add(a: u64, b: u64) -> (r: u64)
    ensures
        r == capped_sum(a, b),
{
    if a > u64::MAX - b {
        u64::MAX
    } else {
        a + b
    }
}

/// What can go wrong in the library.
#[derive(Clone, Copy, Debug, PartialEq, Eq, Structural)]
pub enum Failure {
    /// A setting holds a value outside its range.
    InvalidSetting,
    /// The same region is registered already.
    DuplicateMap,
    /// An executable with the same path is known already.
    DuplicateExe,
    /// No sequence number is left to give out.
    SequenceExhausted,
    /// A path has no `file` URI.
    BadPath,
    /// A URI does not name a file path.
    BadUri,
    /// A version string cannot be read.
    BadVersion,
    /// A matrix of transition counts cannot be written as a blob.
    BadWeights,
    /// A blob does not hold a balanced matrix of transition counts.
    BadBlob,
    /// Two stored rows share a sequence number.
    DuplicateSeq,
}

/// The kinds of failure that the daemon tells apart.
#[derive(Clone, Copy, Debug, PartialEq, Eq, Structural)]
pub enum FailureKind {
    /// The configuration cannot be used.
    Config,
    /// The state store holds, or was given, something unusable.
    Store,
    /// An invariant of the model would be broken.
    Invariant,
}

impl Failure {
    /// The kind of this failure.
    pub open spec fn spec_kind(&self) -> FailureKind {
        match self {
            Failure::InvalidSetting => FailureKind::Config,
            Failure::DuplicateMap | Failure::DuplicateExe | Failure::SequenceExhausted => FailureKind::Invariant,
            Failure::BadPath | Failure::BadUri | Failure::BadVersion | Failure::BadWeights | Failure::BadBlob
            | Failure::DuplicateSeq => FailureKind::Store,
        }
    }

    /// The kind of this failure.
    pub fn kind(&self) -> (k: FailureKind)
        ensures
            k == self.spec_kind(),
    {
        match self {
            Failure::InvalidSetting => FailureKind::Config,
            Failure::DuplicateMap | Failure::DuplicateExe | Failure::SequenceExhausted => FailureKind::Invariant,
            Failure::BadPath | Failure::BadUri | Failure::BadVersion | Failure::BadWeights | Failure::BadBlob
            | Failure::DuplicateSeq => FailureKind::Store,
        }
    }
}

/// A value together with an optional hook that is run when the value is
/// released.
///
/// The hook is never run implicitly: [`DropperCell::release`] hands the value
/// back after calling it.
pub struct DropperCell<T, F: Fn(&T)> {
    value: T,
    dropper: Option<F>,
}

impl<T, F: Fn(&T)> DropperCell<T, F> {
    /// The value held by the cell.
    pub closed spec fn value(&self) -> T {
        self.value
    }

    /// The release hook, if there is one.
    pub closed spec fn dropper(&self) -> Option<F> {
        self.dropper
    }

    /// Wraps `value` with the release hook `dropper`.
    pub fn new(value: T, dropper: Option<F>) -> (cell: Self)
        ensures
            cell.value() == value,
            cell.dropper() == dropper,
    {
        DropperCell { value, dropper }
    }

    /// Borrows the value.
    pub fn get(&self) -> (r: &T)
        ensures
            *r == self.value(),
    {
        &self.value
    }

    /// Replaces the value and returns the previous one. The hook is kept.
    pub fn replace(&mut self, value: T) -> (previous: T)
        ensures
            previous == old(self).value(),
            final(self).value() == value,
            final(self).dropper() == old(self).dropper(),
    {
        let mut value = value;
        std::mem::swap(&mut self.value, &mut value);
        value
    }

    /// Runs the hook on the value, if there is a hook, and returns the value.
    pub fn release(self) -> (value: T)
        requires
            self.dropper() is Some ==> self.dropper()->Some_0.requires((&self.value(),)),
        ensures
            value == self.value(),
            self.dropper() is Some ==> self.dropper()->Some_0.ensures((&value,), ()),
    {
        let DropperCell { value, dropper } = self;
        match &dropper {
            Some(hook) => {
                hook(&value);
            },
            None => {},
        }
        value
    }
}

} // verus!
