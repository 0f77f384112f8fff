//! What is learnt from the process table: memory statistics, the prefix
//! filter for paths, and the file-backed mappings of a process.

use crate::common::{capped_add, capped_sum, kb};
use crate::path::{ends_with, path_bytes, starts_with};
use crate::state::Region;
use vstd::prelude::*;
use vstd::slice::slice_subrange;

verus! {

/// Memory conditions of the system, in kibibytes.
#[derive(Clone, Copy, Debug, PartialEq, Eq)]
pub struct MemInfo {
    /// Total memory.
    pub total: u32,
    /// Free memory.
    pub free: u32,
    /// Buffer memory.
    pub buffers: u32,
    /// Page-cache memory.
    pub cached: u32,
    /// Data paged in since boot.
    pub pagein: u32,
    /// Data paged out since boot.
    pub pageout: u32,
}

/// The raw counters that a memory snapshot is made from.
#[derive(Clone, Copy, Debug, PartialEq, Eq)]
pub struct MemCounters {
    /// Total memory, in bytes.
    pub mem_total: u64,
    /// Free memory, in bytes.
    pub mem_free: u64,
    /// Buffer memory, in bytes.
    pub buffers: u64,
    /// Page-cache memory, in bytes.
    pub cached: u64,
    /// Size of a page, in bytes.
    pub page_size: u64,
    /// Pages paged in since boot.
    pub pgpgin: u64,
    /// Pages paged out since boot.
    pub pgpgout: u64,
}

/// A figure held to 32 bits: the figure itself, or the largest number of 32
/// bits where it is beyond that.
pub open spec fn capped32(figure: int) -> u32 {
    if figure > u32::MAX {
        u32::MAX
    } else {
        figure as u32
    }
}

impl MemCounters {
    /// The snapshot made from these counters: sizes in whole kibibytes, page
    /// counts multiplied by the kibibytes of a page, and every figure held to
    /// 32 bits.
    pub open spec fn snapshot(&self) -> MemInfo {
        MemInfo {
            total: capped32(self.mem_total as int / 1024),
            free: capped32(self.mem_free as int / 1024),
            buffers: capped32(self.buffers as int / 1024),
            cached: capped32(self.cached as int / 1024),
            pagein: capped32(self.pgpgin * (self.page_size as int / 1024)),
            pageout: capped32(self.pgpgout * (self.page_size as int / 1024)),
        }
    }
}

/// A size held to 32 bits.
fn capped(figure: u64) -> (r: u32)
    ensures
        r == capped32(figure as int),
{
    if figure > 0xffff_ffff {
        0xffff_ffff
    } else {
        figure as u32
    }
}

/// `pages * unit`, held to 32 bits.
fn paged(pages: u64, unit: u64) -> (r: u32)
    ensures
        r == capped32(pages * unit),
{
    if unit == 0 || pages == 0 {
        assert(pages * unit == 0) by (nonlinear_arith)
            requires
                unit == 0 || pages == 0,
        ;
        return 0;
    }
    if pages > 0xffff_ffff || unit > 0xffff_ffff {
        assert(pages * unit > u32::MAX) by (nonlinear_arith)
            requires
                pages >= 1,
                unit >= 1,
                pages > 0xffff_ffff || unit > 0xffff_ffff,
        ;
        return 0xffff_ffff;
    }
    assert(pages * unit <= 0xffff_ffff * 0xffff_ffff) by (nonlinear_arith)
        requires
            pages <= 0xffff_ffff,
            unit <= 0xffff_ffff,
    ;
    capped(pages * unit)
}

impl MemInfo {
    /// A snapshot with every figure zero.
    pub fn zero() -> (m: Self)
        ensures
            m == (MemInfo { total: 0, free: 0, buffers: 0, cached: 0, pagein: 0, pageout: 0 }),
    {
        MemInfo { total: 0, free: 0, buffers: 0, cached: 0, pagein: 0, pageout: 0 }
    }

    /// The snapshot made from `counters`. A figure that is beyond 32 bits,
    /// as a paging counter is after a long time up, stands at the largest
    /// number of 32 bits.
    pub fn new(counters: &MemCounters) -> (m: Self)
        ensures
            m == counters.snapshot(),
    {
        let mut this = Self::zero();
        this.update(counters);
        this
    }

    /// Refreshes the snapshot from `counters`.
    pub fn update(&mut self, counters: &MemCounters)
        ensures
            *final(self) == counters.snapshot(),
    {
        let unit = kb(counters.page_size);
        self.total = capped(kb(counters.mem_total));
        self.free = capped(kb(counters.mem_free));
        self.buffers = capped(kb(counters.buffers));
        self.cached = capped(kb(counters.cached));
        self.pagein = paged(counters.pgpgin, unit);
        self.pageout = paged(counters.pgpgout, unit);
    }
}

impl Default for MemInfo {
    fn default() -> (m: Self)
        ensures
            m == (MemInfo { total: 0, free: 0, buffers: 0, cached: 0, pagein: 0, pageout: 0 }),
    {
        MemInfo::zero()
    }
}

/// A running process and the executable that it runs.
#[derive(Debug)]
pub struct Process {
    /// Process identifier.
    pub pid: i32,
    /// Absolute path of the executable.
    pub exe: String,
}

/// One mapping of a process's address space.
#[derive(Debug)]
pub struct ProcMap {
    /// First address of the mapping.
    pub start: u64,
    /// First address behind the mapping.
    pub end: u64,
    /// Offset into the mapped file.
    pub offset: u64,
    /// What the process table gives as the path of the mapped file, if it
    /// gives one.
    pub path: Option<String>,
}

/// What the process table appends to the path of a mapped file that has been
/// unlinked.
pub open spec fn deleted_mark() -> Seq<u8> {
    path_bytes(" (deleted)"@)
}

/// Whether a path as the process table gives it names a real file: it is
/// absolute, and the file has not been unlinked.
pub open spec fn names_file(path: Seq<u8>) -> bool {
    path.len() > 0 && path[0] == 0x2f && !deleted_mark().is_suffix_of(path)
}

impl ProcMap {
    /// The length of the mapping: the distance between its two addresses.
    pub open spec fn span(&self) -> u64 {
        if self.end >= self.start {
            (self.end - self.start) as u64
        } else {
            0
        }
    }

    /// Whether the mapping is backed by a real file.
    pub open spec fn spec_is_file(&self) -> bool {
        self.path is Some && names_file(path_bytes(self.path->Some_0@))
    }

    /// The region that the mapping is a use of.
    pub open spec fn spec_region(&self) -> Region {
        Region::spec_new(self.path->Some_0, self.offset, self.span())
    }

    /// The length of the mapping.
    pub fn length(&self) -> (r: u64)
        ensures
            r == self.span(),
    {
        if self.end >= self.start {
            self.end - self.start
        } else {
            0
        }
    }

    /// Whether the mapping is backed by a real file.
    pub fn is_file(&self) -> (r: bool)
        ensures
            r == self.spec_is_file(),
    {
        match &self.path {
            Some(path) => {
                let bytes = path.as_str().as_bytes();
                bytes.len() > 0 && bytes[0] == 0x2f && !ends_with(bytes, " (deleted)".as_bytes())
            },
            None => false,
        }
    }
}

/// The total length of the file-backed mappings among the first `n` of
/// `maps`, capped at the largest size there is.
pub open spec fn spec_mapped_size(maps: Seq<ProcMap>, n: int) -> u64
    decreases n,
{
    if n <= 0 {
        0
    } else if maps[n - 1].spec_is_file() {
        capped_sum(spec_mapped_size(maps, n - 1), maps[n - 1].span())
    } else {
        spec_mapped_size(maps, n - 1)
    }
}

/// The regions used by the first `n` of `maps`: one for each file-backed
/// mapping whose path passes the filter `rules`, in the order of the
/// mappings.
pub open spec fn spec_accepted_maps(maps: Seq<ProcMap>, rules: Seq<String>, n: int) -> Seq<Region>
    decreases n,
{
    if n <= 0 {
        Seq::empty()
    } else if maps[n - 1].spec_is_file() && spec_accept_file(
        maps[n - 1].path->Some_0@,
        Some(rules),
    ) {
        spec_accepted_maps(maps, rules, n - 1).push(maps[n - 1].spec_region())
    } else {
        spec_accepted_maps(maps, rules, n - 1)
    }
}

/// The lengths of the file-backed mappings among the first `n` of `maps`,
/// added up.
pub open spec fn total_span(maps: Seq<ProcMap>, n: int) -> int
    decreases n,
{
    if n <= 0 {
        0
    } else if maps[n - 1].spec_is_file() {
        total_span(maps, n - 1) + maps[n - 1].span()
    } else {
        total_span(maps, n - 1)
    }
}

/// The size of a process is the sum of the lengths of all its file-backed
/// mappings, whatever a filter makes of their paths, for as long as the sum
/// fits 64 bits, and the largest number of 64 bits beyond that. Mappings
/// that are not backed by a file add nothing.
pub proof fn lemma_mapped_size_is_total(maps: Seq<ProcMap>, n: int)
    requires
        0 <= n <= maps.len(),
    ensures
        total_span(maps, n) >= 0,
        spec_mapped_size(maps, n) == (if total_span(maps, n) > u64::MAX {
            u64::MAX as int
        } else {
            total_span(maps, n)
        }),
    decreases n,
{
    if n > 0 {
        lemma_mapped_size_is_total(maps, n - 1);
    }
}

/// The total length of the file-backed mappings of a process, capped at the
/// largest size there is.
pub fn mapped_size(maps: &Vec<ProcMap>) -> (size: u64)
    ensures
        size == spec_mapped_size(maps@, maps@.len() as int),
        total_span(maps@, maps@.len() as int) <= u64::MAX ==> size == total_span(
            maps@,
            maps@.len() as int,
        ),
{
    proof {
        lemma_mapped_size_is_total(maps@, maps@.len() as int);
    }
    let mut size: u64 = 0;
    let mut i: usize = 0;
    while i < maps.len()
        invariant
            i <= maps@.len(),
            size == spec_mapped_size(maps@, i as int),
        decreases maps@.len() - i,
    {
        if maps[i].is_file() {
            size = capped_add(size, maps[i].length());
        }
        i = i + 1;
    }
    size
}

/// A file-backed mapping counts for the total length of the mappings
/// whether the filter lets its path pass or not; only one that passes gives
/// a region. A mapping that is not backed by a file counts for nothing and
/// gives none.
pub proof fn lemma_rejected_maps_count(maps: Seq<ProcMap>, rules: Seq<String>, n: int)
    requires
        0 < n <= maps.len(),
    ensures
        maps[n - 1].spec_is_file() ==> spec_mapped_size(maps, n) == capped_sum(
            spec_mapped_size(maps, n - 1),
            maps[n - 1].span(),
        ),
        !maps[n - 1].spec_is_file() ==> spec_mapped_size(maps, n) == spec_mapped_size(maps, n - 1)
            && spec_accepted_maps(maps, rules, n) == spec_accepted_maps(maps, rules, n - 1),
        maps[n - 1].spec_is_file() && !spec_accept_file(maps[n - 1].path->Some_0@, Some(rules))
            ==> spec_accepted_maps(maps, rules, n) == spec_accepted_maps(maps, rules, n - 1),
        maps[n - 1].spec_is_file() && spec_accept_file(maps[n - 1].path->Some_0@, Some(rules))
            ==> spec_accepted_maps(maps, rules, n) == spec_accepted_maps(maps, rules, n - 1).push(
            maps[n - 1].spec_region(),
        ),
{
}

/// Goes through the mappings of a process: returns the total length of the
/// file-backed ones, and a region for each of them whose path passes the
/// filter `mapprefix`. A mapping that the filter rejects still counts for the
/// total.
pub fn get_maps(maps: &Vec<ProcMap>, mapprefix: &[String]) -> (r: (u64, Vec<Region>))
    ensures
        r.0 == spec_mapped_size(maps@, maps@.len() as int),
        total_span(maps@, maps@.len() as int) <= u64::MAX ==> r.0 == total_span(
            maps@,
            maps@.len() as int,
        ),
        r.1@ == spec_accepted_maps(maps@, mapprefix@, maps@.len() as int),
{
    proof {
        lemma_mapped_size_is_total(maps@, maps@.len() as int);
    }
    let mut size: u64 = 0;
    let mut regions: Vec<Region> = Vec::new();
    let mut i: usize = 0;
    while i < maps.len()
        invariant
            i <= maps@.len(),
            size == spec_mapped_size(maps@, i as int),
            regions@ == spec_accepted_maps(maps@, mapprefix@, i as int),
        decreases maps@.len() - i,
    {
        let map = &maps[i];
        if map.is_file() {
            size = capped_add(size, map.length());
            match &map.path {
                Some(path) => {
                    if accept_file(path.as_str(), Some(mapprefix)) {
                        regions.push(Region::new(path.clone(), map.offset, map.length()));
                    }
                },
                None => {},
            }
        }
        i = i + 1;
    }
    (size, regions)
}

/// Whether a rule of the prefix filter rejects what it matches: it begins
/// with `!`.
pub open spec fn rule_rejects(rule: Seq<u8>) -> bool {
    rule.len() > 0 && rule[0] == 0x21
}

/// The prefix that a rule matches: the rule without its leading `!`.
pub open spec fn rule_prefix(rule: Seq<u8>) -> Seq<u8> {
    if rule_rejects(rule) {
        rule.subrange(1, rule.len() as int)
    } else {
        rule
    }
}

/// Whether `rule` matches `file`: the file begins with the rule's prefix.
pub open spec fn rule_matches(rule: Seq<u8>, file: Seq<u8>) -> bool {
    rule_prefix(rule).is_prefix_of(file)
}

/// The rules of a prefix filter as bytes.
pub open spec fn rule_bytes(rules: Seq<String>) -> Seq<Seq<u8>> {
    Seq::new(rules.len(), |i: int| path_bytes(rules[i]@))
}

/// Whether the rules accept `file`: the first rule that matches it, if there
/// is one, is not a reject rule.
pub open spec fn accepted(file: Seq<u8>, rules: Seq<Seq<u8>>) -> bool {
    forall|i: int|
        0 <= i < rules.len() && #[trigger] rule_matches(rules[i], file) && (forall|j: int|
            0 <= j < i ==> !#[trigger] rule_matches(rules[j], file)) ==> !rule_rejects(rules[i])
}

/// Whether `file` passes the filter `prefixes`; without a filter every file
/// passes.
pub open spec fn spec_accept_file(file: Seq<char>, prefixes: Option<Seq<String>>) -> bool {
    match prefixes {
        Some(rules) => accepted(path_bytes(file), rule_bytes(rules)),
        None => true,
    }
}

/// Checks `file` against an ordered list of prefix rules.
///
/// A rule is a path prefix, or `!` and a path prefix. The first rule whose
/// prefix the file begins with decides: the file is accepted unless the rule
/// begins with `!`. A file that no rule matches is accepted, and so is every
/// file where there is no list.
pub fn accept_file(file: &str, prefixes: Option<&[String]>) -> (r: bool)
    ensures
        r == spec_accept_file(
            file@,
            match prefixes {
                Some(rules) => Some(rules@),
                None => None,
            },
        ),
{
    let rules = match prefixes {
        Some(rules) => rules,
        None => {
            return true;
        },
    };
    let name = file.as_bytes();
    let ghost all = rule_bytes(rules@);
    let mut i: usize = 0;
    while i < rules.len()
        invariant
            i <= rules@.len(),
            prefixes == Some(rules),
            name@ == path_bytes(file@),
            all == rule_bytes(rules@),
            forall|j: int| 0 <= j < i ==> !#[trigger] rule_matches(all[j], name@),
        decreases rules@.len() - i,
    {
        let rule = rules[i].as_str().as_bytes();
        assert(rule@ == all[i as int]);
        let rejects = rule.len() > 0 && rule[0] == 0x21;
        let prefix = if rejects {
            slice_subrange(rule, 1, rule.len())
        } else {
            rule
        };
        assert(prefix@ == rule_prefix(rule@));
        if starts_with(name, prefix) {
            proof {
                assert(rule_matches(all[i as int], name@));
                assert forall|k: int|
                    0 <= k < all.len() && #[trigger] rule_matches(all[k], name@) && (forall|j: int|
                        0 <= j < k ==> !#[trigger] rule_matches(all[j], name@)) implies k == i by {
                    if k > i {
                        assert(!rule_matches(all[i as int], name@));
                    }
                }
            }
            return !rejects;
        }
        i = i + 1;
    }
    true
}

} // verus!
