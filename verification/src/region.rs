//! Equality and order of regions. Both go by the path, the offset and the
//! length, and by nothing else.

use crate::path::{
    bytes_rank, lemma_path_bytes_injective, lemma_precedes_total, path_bytes, precedes,
};
use crate::state::Region;
use core::cmp::Ordering;
use vstd::prelude::*;
use vstd::std_specs::cmp::{PartialEqSpec, PartialOrdSpec};

verus! {

/// How two regions compare: by their paths byte by byte, then by their
/// offsets, then by their lengths.
pub open spec fn key_order(a: Region, b: Region) -> Ordering {
    if precedes(path_bytes(a.path@), path_bytes(b.path@)) {
        Ordering::Less
    } else if precedes(path_bytes(b.path@), path_bytes(a.path@)) {
        Ordering::Greater
    } else if a.offset < b.offset {
        Ordering::Less
    } else if a.offset > b.offset {
        Ordering::Greater
    } else if a.length < b.length {
        Ordering::Less
    } else if a.length > b.length {
        Ordering::Greater
    } else {
        Ordering::Equal
    }
}

/// How the paths of two regions compare, byte by byte.
pub open spec fn path_order(a: Region, b: Region) -> Ordering {
    if precedes(path_bytes(a.path@), path_bytes(b.path@)) {
        Ordering::Less
    } else if precedes(path_bytes(b.path@), path_bytes(a.path@)) {
        Ordering::Greater
    } else {
        Ordering::Equal
    }
}

impl Region {
    /// Compares the paths of two regions byte by byte.
    pub fn path_compare(&self, other: &Region) -> (r: Ordering)
        ensures
            r == path_order(*self, *other),
    {
        match bytes_rank(self.path.as_str().as_bytes(), other.path.as_str().as_bytes()) {
            1 => Ordering::Less,
            2 => Ordering::Greater,
            _ => Ordering::Equal,
        }
    }
}

impl PartialEq for Region {
    fn eq(&self, other: &Self) -> (r: bool) {
        self.is_same(other)
    }
}

impl Eq for Region {

}

impl vstd::std_specs::cmp::PartialEqSpecImpl for Region {
    open spec fn obeys_eq_spec() -> bool {
        true
    }

    open spec fn eq_spec(&self, other: &Self) -> bool {
        self.same_key(other)
    }
}

impl PartialOrd for Region {
    fn partial_cmp(&self, other: &Self) -> (r: Option<Ordering>) {
        let by_path = self.path_compare(other);
        if matches!(by_path, Ordering::Less) {
            Some(Ordering::Less)
        } else if matches!(by_path, Ordering::Greater) {
            Some(Ordering::Greater)
        } else if self.offset < other.offset {
            Some(Ordering::Less)
        } else if self.offset > other.offset {
            Some(Ordering::Greater)
        } else if self.length < other.length {
            Some(Ordering::Less)
        } else if self.length > other.length {
            Some(Ordering::Greater)
        } else {
            Some(Ordering::Equal)
        }
    }
}

impl vstd::std_specs::cmp::PartialOrdSpecImpl for Region {
    open spec fn obeys_partial_cmp_spec() -> bool {
        true
    }

    open spec fn partial_cmp_spec(&self, other: &Self) -> Option<Ordering> {
        Some(key_order(*self, *other))
    }
}

/// Equality and order of regions depend on path, offset and length only:
/// regions that agree in these compare alike with every other region.
pub proof fn lemma_compare_by_key(a: Region, b: Region, c: Region, d: Region)
    requires
        a.same_key(&c),
        b.same_key(&d),
    ensures
        a.eq_spec(&b) == c.eq_spec(&d),
        a.partial_cmp_spec(&b) == c.partial_cmp_spec(&d),
{
}

/// Two regions compare as equal exactly where they are the same region.
pub proof fn lemma_order_agrees_with_equality(a: Region, b: Region)
    ensures
        a.partial_cmp_spec(&b) == Some(Ordering::Equal) <==> a.eq_spec(&b),
{
    lemma_precedes_total(path_bytes(a.path@), path_bytes(b.path@));
    if path_bytes(a.path@) == path_bytes(b.path@) {
        lemma_path_bytes_injective(a.path@, b.path@);
    }
}

} // verus!
