//! Read-ahead: the order in which the chosen regions are read, and the
//! requests that they are merged into.

use crate::model::SortStrategy;
use crate::path::{path_bytes, precedes};
use crate::state::Region;
use vstd::prelude::*;

verus! {

/// A range of a file to read ahead.
#[derive(Debug)]
pub struct Request {
    /// Absolute path of the file.
    pub path: String,
    /// Offset in bytes.
    pub offset: u64,
    /// Length in bytes.
    pub length: u64,
}

impl Clone for Request {
    fn clone(&self) -> (r: Self)
        ensures
            r == *self,
    {
        Request { path: self.path.clone(), offset: self.offset, length: self.length }
    }
}

impl Region {
    /// The place on disk that is recorded for a file whose inode number was
    /// looked up: the number itself, or zero where the lookup failed or gave a
    /// number beyond the largest place there is, so that it is not tried
    /// again. A place that is recorded is never negative.
    pub open spec fn spec_block(inode: Option<u64>) -> i64 {
        match inode {
            Some(number) => if number <= i64::MAX {
                number as i64
            } else {
                0
            },
            None => 0,
        }
    }

    /// Records the place of the region on disk from the inode number of its
    /// file, or from the failure to look it up.
    pub fn set_block(&mut self, inode: Option<u64>)
        ensures
            *final(self) == (Region { block: Self::spec_block(inode), ..*old(self) }),
            final(self).block >= 0,
    {
        self.block = match inode {
            Some(number) => if number <= i64::MAX as u64 {
                number as i64
            } else {
                0
            },
            None => 0,
        };
    }
}

/// How many of the first `n` regions have no known place on disk.
pub open spec fn unknown_before(maps: Seq<Region>, n: int) -> int
    decreases n,
{
    if n <= 0 {
        0
    } else if maps[n - 1].block == -1 {
        unknown_before(maps, n - 1) + 1
    } else {
        unknown_before(maps, n - 1)
    }
}

/// The paths of those of the first `n` regions that have no known place on
/// disk, in the order of the regions: the files to look up.
pub open spec fn spec_lookups(maps: Seq<Region>, n: int) -> Seq<String>
    decreases n,
{
    if n <= 0 {
        Seq::empty()
    } else if maps[n - 1].block == -1 {
        spec_lookups(maps, n - 1).push(maps[n - 1].path)
    } else {
        spec_lookups(maps, n - 1)
    }
}

/// The inode number that was looked up for region `i`, which has no known
/// place on disk: the numbers come in the order of the regions without a
/// place, and a number that is missing counts as a lookup that failed.
pub open spec fn inode_for(maps: Seq<Region>, inodes: Seq<Option<u64>>, i: int) -> Option<u64> {
    if unknown_before(maps, i) < inodes.len() {
        inodes[unknown_before(maps, i)]
    } else {
        None
    }
}

/// The regions with the places on disk filled in from the inode numbers that
/// were looked up: a region whose place was known keeps it.
pub open spec fn spec_filled(maps: Seq<Region>, inodes: Seq<Option<u64>>) -> Seq<Region> {
    Seq::new(
        maps.len(),
        |i: int|
            if maps[i].block == -1 {
                Region { block: Region::spec_block(inode_for(maps, inodes, i)), ..maps[i] }
            } else {
                maps[i]
            },
    )
}

/// Whether a strategy orders the regions by their place on disk.
pub open spec fn by_place(strategy: SortStrategy) -> bool {
    strategy == SortStrategy::Inode || strategy == SortStrategy::Block
}

/// The regions as they are sorted under a strategy: with their places on
/// disk filled in where the strategy goes by place, and as they are
/// otherwise.
pub open spec fn spec_prepared(
    maps: Seq<Region>,
    strategy: SortStrategy,
    inodes: Seq<Option<u64>>,
) -> Seq<Region> {
    if by_place(strategy) {
        spec_filled(maps, inodes)
    } else {
        maps
    }
}

/// The paths of the regions ascend: none comes before one that stands
/// earlier.
pub open spec fn sorted_by_path(maps: Seq<Region>) -> bool {
    forall|a: int, b: int|
        0 <= a <= b < maps.len() ==> !precedes(
            path_bytes((#[trigger] maps[b]).path@),
            path_bytes((#[trigger] maps[a]).path@),
        )
}

/// The places on disk of the regions ascend.
pub open spec fn sorted_by_block(maps: Seq<Region>) -> bool {
    forall|a: int, b: int|
        0 <= a <= b < maps.len() ==> (#[trigger] maps[a]).block <= (#[trigger] maps[b]).block
}

/// The place on disk of some region is not known.
pub open spec fn lacks_block(maps: Seq<Region>) -> bool {
    exists|i: int| 0 <= i < maps.len() && (#[trigger] maps[i]).block == -1
}

/// The place on disk of every region is known or marked as not known: none
/// is below -1.
pub open spec fn blocks_sound(maps: Seq<Region>) -> bool {
    forall|i: int| 0 <= i < maps.len() ==> (#[trigger] maps[i]).block >= -1
}

/// The place on disk of every region is known: none is negative.
pub open spec fn blocks_known(maps: Seq<Region>) -> bool {
    forall|i: int| 0 <= i < maps.len() ==> (#[trigger] maps[i]).block >= 0
}

/// What a strategy asks of the order of the regions.
pub open spec fn sorted_by(maps: Seq<Region>, strategy: SortStrategy) -> bool {
    match strategy {
        SortStrategy::Unsorted => true,
        SortStrategy::Path => sorted_by_path(maps),
        SortStrategy::Inode | SortStrategy::Block => sorted_by_block(maps),
    }
}

/// Sorts the regions by path with `sort_unstable_by` of the standard
/// library, which is handed [`Region::path_compare`] to compare two regions
/// with; that the bytewise order is a total order is proved beside its
/// definition. The sorted vector holds the same regions as before, each as
/// often as before, and none comes before one that stands earlier.
#[verifier::external_body]
fn sort_by_path(maps: &mut Vec<Region>)
    ensures
        final(maps)@.to_multiset() == old(maps)@.to_multiset(),
        sorted_by_path(final(maps)@),
{
    maps.sort_unstable_by(|a, b| a.path_compare(b))
}

/// Sorts the regions by their place on disk with `sort_unstable_by_key` of
/// the standard library. The sorted vector holds the same regions as before,
/// each as often as before.
#[verifier::external_body]
fn sort_by_block(maps: &mut Vec<Region>)
    ensures
        final(maps)@.to_multiset() == old(maps)@.to_multiset(),
        sorted_by_block(final(maps)@),
{
    maps.sort_unstable_by_key(|region| region.block)
}

/// Whether the place on disk of some region is not known.
pub fn needs_block(maps: &Vec<Region>) -> (r: bool)
    ensures
        r == lacks_block(maps@),
{
    let mut i: usize = 0;
    while i < maps.len()
        invariant
            i <= maps@.len(),
            forall|j: int| 0 <= j < i ==> (#[trigger] maps@[j]).block != -1,
        decreases maps@.len() - i,
    {
        if maps[i].block == -1 {
            return true;
        }
        i = i + 1;
    }
    false
}

/// The paths of the regions that have no known place on disk, in the order
/// of the regions.
pub fn lookups(maps: &Vec<Region>) -> (paths: Vec<String>)
    ensures
        paths@ == spec_lookups(maps@, maps@.len() as int),
        paths@.len() == unknown_before(maps@, maps@.len() as int),
{
    let mut paths: Vec<String> = Vec::new();
    let mut i: usize = 0;
    while i < maps.len()
        invariant
            i <= maps@.len(),
            paths@ == spec_lookups(maps@, i as int),
            paths@.len() == unknown_before(maps@, i as int),
        decreases maps@.len() - i,
    {
        if maps[i].block == -1 {
            paths.push(maps[i].path.clone());
        }
        i = i + 1;
    }
    paths
}

/// Gets the regions ready for the lookup of their places on disk, and
/// returns the paths of the files to look up.
///
/// Where the strategy goes by place and the place of some region is not
/// known, the regions are sorted by path, so that the lookups that follow
/// touch each directory once, and the paths of the regions without a place
/// are returned in that order. Otherwise nothing changes and nothing is to be
/// looked up.
pub fn sort_for_lookup(maps: &mut Vec<Region>, strategy: SortStrategy) -> (paths: Vec<String>)
    ensures
        final(maps)@.to_multiset() == old(maps)@.to_multiset(),
        by_place(strategy) && lacks_block(old(maps)@) ==> sorted_by_path(final(maps)@)
            && paths@ == spec_lookups(final(maps)@, final(maps)@.len() as int) && paths@.len()
            == unknown_before(final(maps)@, final(maps)@.len() as int),
        !(by_place(strategy) && lacks_block(old(maps)@)) ==> final(maps)@ == old(maps)@
            && paths@.len() == 0,
{
    match strategy {
        SortStrategy::Inode | SortStrategy::Block => {
            if needs_block(maps) {
                sort_by_path(maps);
                lookups(maps)
            } else {
                Vec::new()
            }
        },
        _ => Vec::new(),
    }
}

/// Fills in the places on disk of the regions that have none from the inode
/// numbers that were looked up for them, which come in the order of those
/// regions. Afterwards the place of every region is known, and none that was
/// filled in is negative.
pub fn fill_blocks(maps: &mut Vec<Region>, inodes: &Vec<Option<u64>>)
    ensures
        final(maps)@ == spec_filled(old(maps)@, inodes@),
        !lacks_block(final(maps)@),
        forall|i: int|
            0 <= i < old(maps)@.len() && (#[trigger] old(maps)@[i]).block == -1 ==> final(maps)@[i].block >= 0,
        blocks_sound(old(maps)@) ==> blocks_known(final(maps)@),
{
    let mut next: usize = 0;
    let mut i: usize = 0;
    while i < maps.len()
        invariant
            i <= maps@.len(),
            maps@.len() == old(maps)@.len(),
            next == unknown_before(old(maps)@, i as int),
            next <= i,
            forall|j: int| 0 <= j < i ==> #[trigger] maps@[j] == spec_filled(old(maps)@, inodes@)[j],
            forall|j: int| i <= j < maps@.len() ==> #[trigger] maps@[j] == old(maps)@[j],
        decreases maps@.len() - i,
    {
        if maps[i].block == -1 {
            let inode = if next < inodes.len() {
                inodes[next]
            } else {
                None
            };
            assert(inode == inode_for(old(maps)@, inodes@, i as int));
            maps[i].set_block(inode);
            next = next + 1;
        }
        i = i + 1;
    }
    proof {
        assert(maps@ =~= spec_filled(old(maps)@, inodes@));
        assert forall|j: int| 0 <= j < maps@.len() implies (#[trigger] maps@[j]).block != -1 by {
            assert(maps@[j] == spec_filled(old(maps)@, inodes@)[j]);
        }
        if blocks_sound(old(maps)@) {
            assert forall|j: int| 0 <= j < maps@.len() implies (#[trigger] maps@[j]).block >= 0 by {
                assert(maps@[j] == spec_filled(old(maps)@, inodes@)[j]);
                assert(old(maps)@[j].block >= -1);
            }
        }
    }
}

/// Fills in the places on disk that were looked up and sorts the regions by
/// their place on disk.
pub fn sort_by_block_or_inode(maps: &mut Vec<Region>, inodes: &Vec<Option<u64>>)
    ensures
        final(maps)@.to_multiset() == spec_filled(old(maps)@, inodes@).to_multiset(),
        sorted_by_block(final(maps)@),
        !lacks_block(final(maps)@),
        blocks_sound(old(maps)@) ==> blocks_known(final(maps)@),
{
    fill_blocks(maps, inodes);
    let ghost filled = maps@;
    sort_by_block(maps);
    proof {
        lemma_blocks_known_permuted(filled, maps@);
    }
}

/// Sorts the regions as `strategy` asks: not at all, by path, or by their
/// place on disk, which is filled in first from the inode numbers that were
/// looked up. The sorted vector holds the same regions as before, each as
/// often as before, but for the places that were filled in; a place that was
/// known is kept.
pub fn sort_maps(maps: &mut Vec<Region>, strategy: SortStrategy, inodes: &Vec<Option<u64>>)
    ensures
        final(maps)@.to_multiset() == spec_prepared(old(maps)@, strategy, inodes@).to_multiset(),
        sorted_by(final(maps)@, strategy),
        strategy == SortStrategy::Unsorted ==> final(maps)@ == old(maps)@,
        by_place(strategy) ==> !lacks_block(final(maps)@),
        by_place(strategy) && blocks_sound(old(maps)@) ==> blocks_known(final(maps)@),
{
    match strategy {
        SortStrategy::Unsorted => {},
        SortStrategy::Path => {
            sort_by_path(maps);
        },
        SortStrategy::Inode | SortStrategy::Block => {
            sort_by_block_or_inode(maps, inodes);
        },
    }
}

/// Whether the place of every region is known does not depend on their
/// order.
pub proof fn lemma_blocks_known_permuted(before: Seq<Region>, after: Seq<Region>)
    requires
        before.to_multiset() == after.to_multiset(),
    ensures
        !lacks_block(before) ==> !lacks_block(after),
        blocks_known(before) ==> blocks_known(after),
{
    before.to_multiset_ensures();
    after.to_multiset_ensures();
    assert forall|i: int| 0 <= i < after.len() implies before.contains(#[trigger] after[i]) by {
        assert(after.contains(after[i]));
        assert(before.to_multiset().count(after[i]) > 0);
    }
    if !lacks_block(before) {
        assert forall|i: int| 0 <= i < after.len() implies (#[trigger] after[i]).block != -1 by {
            assert(before.contains(after[i]));
            let j = choose|j: int| 0 <= j < before.len() && before[j] == after[i];
            assert(before[j].block != -1);
        }
    }
    if blocks_known(before) {
        assert forall|i: int| 0 <= i < after.len() implies (#[trigger] after[i]).block >= 0 by {
            assert(before.contains(after[i]));
            let j = choose|j: int| 0 <= j < before.len() && before[j] == after[i];
            assert(before[j].block >= 0);
        }
    }
}

/// The end of every region can be told: offset and length add up within 64
/// bits.
pub open spec fn spans_fit(maps: Seq<Region>) -> bool {
    forall|i: int| 0 <= i < maps.len() ==> (#[trigger] maps[i]).offset + maps[i].length <= u64::MAX
}

/// Whether the end of every region can be told.
pub fn check_spans(maps: &Vec<Region>) -> (r: bool)
    ensures
        r == spans_fit(maps@),
{
    let mut i: usize = 0;
    while i < maps.len()
        invariant
            i <= maps@.len(),
            forall|j: int|
                0 <= j < i ==> (#[trigger] maps@[j]).offset + maps@[j].length <= u64::MAX,
        decreases maps@.len() - i,
    {
        if maps[i].length > u64::MAX - maps[i].offset {
            return false;
        }
        i = i + 1;
    }
    true
}

/// The request for one region.
pub open spec fn request_for(region: Region) -> Request {
    Request { path: region.path, offset: region.offset, length: region.length }
}

/// Whether `next` is merged into the request `current`: it is part of the
/// same file, and begins within the request or at its end.
pub open spec fn merges(current: Request, next: Region) -> bool {
    &&& current.offset <= next.offset
    &&& current.offset + current.length >= next.offset
    &&& next.path@ == current.path@
}

/// The request `current` after `next` was merged into it: it reaches to the
/// end of `next`.
pub open spec fn merged(current: Request, next: Region) -> Request {
    Request { length: (next.offset + next.length - current.offset) as u64, ..current }
}

/// The requests that are complete after the first `n` regions were walked
/// over.
pub open spec fn spec_complete(maps: Seq<Region>, n: int) -> Seq<Request>
    decreases n, 1int,
{
    if n <= 0 {
        Seq::empty()
    } else {
        match spec_pending(maps, n - 1) {
            Some(current) => if merges(current, maps[n - 1]) {
                spec_complete(maps, n - 1)
            } else {
                spec_complete(maps, n - 1).push(current)
            },
            None => spec_complete(maps, n - 1),
        }
    }
}

/// The request that is still open to merging after the first `n` regions
/// were walked over.
pub open spec fn spec_pending(maps: Seq<Region>, n: int) -> Option<Request>
    decreases n, 0int,
{
    if n <= 0 {
        None
    } else {
        match spec_pending(maps, n - 1) {
            Some(current) => if merges(current, maps[n - 1]) {
                Some(merged(current, maps[n - 1]))
            } else {
                Some(request_for(maps[n - 1]))
            },
            None => Some(request_for(maps[n - 1])),
        }
    }
}

/// The requests that the regions are merged into: the regions are walked
/// over in their order, and one that continues the request before it
/// extends that request.
pub open spec fn spec_coalesce(maps: Seq<Region>) -> Seq<Request> {
    match spec_pending(maps, maps.len() as int) {
        Some(current) => spec_complete(maps, maps.len() as int).push(current),
        None => spec_complete(maps, maps.len() as int),
    }
}

/// Merges the regions into requests.
pub fn coalesce(maps: &Vec<Region>) -> (requests: Vec<Request>)
    requires
        spans_fit(maps@),
    ensures
        requests@ == spec_coalesce(maps@),
{
    let mut requests: Vec<Request> = Vec::new();
    let mut pending: Option<Request> = None;
    let mut i: usize = 0;
    while i < maps.len()
        invariant
            i <= maps@.len(),
            spans_fit(maps@),
            requests@ == spec_complete(maps@, i as int),
            pending == spec_pending(maps@, i as int),
            pending is Some ==> pending->Some_0.offset + pending->Some_0.length <= u64::MAX,
        decreases maps@.len() - i,
    {
        let region = &maps[i];
        assert(region.offset + region.length <= u64::MAX);
        pending = match pending {
            Some(current) => {
                if current.offset <= region.offset && current.offset + current.length
                    >= region.offset && region.path == current.path {
                    Some(
                        Request {
                            path: current.path,
                            offset: current.offset,
                            length: region.offset + region.length - current.offset,
                        },
                    )
                } else {
                    requests.push(current);
                    Some(
                        Request {
                            path: region.path.clone(),
                            offset: region.offset,
                            length: region.length,
                        },
                    )
                }
            },
            None => Some(
                Request { path: region.path.clone(), offset: region.offset, length: region.length },
            ),
        };
        i = i + 1;
    }
    match pending {
        Some(current) => {
            requests.push(current);
        },
        None => {},
    }
    requests
}

/// Puts the regions into the order that `strategy` asks for and merges them
/// into requests. Where the strategy goes by place, the places on disk are
/// filled in first from the inode numbers that were looked up; where it
/// keeps the order, the regions are merged as they stand.
pub fn readahead(maps: &mut Vec<Region>, strategy: SortStrategy, inodes: &Vec<Option<u64>>) -> (requests:
    Vec<Request>)
    requires
        spans_fit(old(maps)@),
    ensures
        final(maps)@.to_multiset() == spec_prepared(old(maps)@, strategy, inodes@).to_multiset(),
        sorted_by(final(maps)@, strategy),
        strategy == SortStrategy::Unsorted ==> final(maps)@ == old(maps)@,
        by_place(strategy) ==> !lacks_block(final(maps)@),
        by_place(strategy) && blocks_sound(old(maps)@) ==> blocks_known(final(maps)@),
        requests@ == spec_coalesce(final(maps)@),
        strategy == SortStrategy::Unsorted ==> requests@ == spec_coalesce(old(maps)@),
{
    sort_maps(maps, strategy, inodes);
    proof {
        let prepared = spec_prepared(old(maps)@, strategy, inodes@);
        assert(spans_fit(prepared)) by {
            assert forall|i: int| 0 <= i < prepared.len() implies (#[trigger] prepared[i]).offset
                + prepared[i].length <= u64::MAX by {
                assert(old(maps)@[i].offset + old(maps)@[i].length <= u64::MAX);
            }
        }
        lemma_spans_fit_permuted(prepared, maps@);
    }
    coalesce(maps)
}

/// Whether the end of every region can be told does not depend on their
/// order.
pub proof fn lemma_spans_fit_permuted(before: Seq<Region>, after: Seq<Region>)
    requires
        spans_fit(before),
        before.to_multiset() == after.to_multiset(),
    ensures
        spans_fit(after),
{
    before.to_multiset_ensures();
    after.to_multiset_ensures();
    assert forall|i: int| 0 <= i < after.len() implies (#[trigger] after[i]).offset
        + after[i].length <= u64::MAX by {
        assert(after.contains(after[i]));
        assert(before.to_multiset().count(after[i]) > 0);
        assert(before.contains(after[i]));
        let j = choose|j: int| 0 <= j < before.len() && before[j] == after[i];
        assert(before[j].offset + before[j].length <= u64::MAX);
    }
}

/// Two regions of one file, of which the second begins where the first
/// ends, are merged into one request that covers both.
pub proof fn lemma_coalesce_adjacent(first: Region, second: Region)
    requires
        first.path@ == second.path@,
        second.offset == first.offset + first.length,
        second.offset + second.length <= u64::MAX,
    ensures
        spec_coalesce(seq![first, second]) == seq![
            Request {
                path: first.path,
                offset: first.offset,
                length: (first.length + second.length) as u64,
            },
        ],
{
    let maps = seq![first, second];
    assert(spec_pending(maps, 0) is None);
    assert(spec_pending(maps, 1) == Some(request_for(first)));
    assert(merges(request_for(first), second));
    assert(spec_pending(maps, 2) == Some(merged(request_for(first), second)));
    assert(spec_complete(maps, 0) =~= Seq::<Request>::empty());
    assert(spec_complete(maps, 1) =~= Seq::<Request>::empty());
    assert(spec_complete(maps, 2) =~= Seq::<Request>::empty());
    assert(spec_coalesce(maps) =~= seq![merged(request_for(first), second)]);
}

} // verus!
