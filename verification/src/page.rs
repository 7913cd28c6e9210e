//! The pages of one process, sorted by how often they were seen unchanged.
//!
//! A page that is seen for the first time, or with another fingerprint than
//! before, is *new*.  A new page that is seen again with the same
//! fingerprint is *old*: it is worth merging.  An old page that has been
//! handed to the merge index is *merged*.

use crate::error::ErrorKind;
use crate::proc::MapRange;
use crate::uksm::{added, removed, Index, PidAddr, UKSMPagemapEntry, Uksm};
use std::collections::HashMap;
use vstd::prelude::*;
use vstd::std_specs::hash::spec_keys_iter;
use vstd::std_specs::iter::IteratorSpec;

verus! {

broadcast use vstd::std_specs::hash::group_hash_axioms;

/// The size of a memory page of this machine in bytes, as the function
/// `get` of the crate `page_size` returns it.  Nothing is claimed of the
/// number: it is what the operating system reports.
#[verifier::external_body]
fn system_page_size() -> (size: usize) {
    page_size::get()
}

/// The size of a memory page of this machine in bytes; `None` where the
/// operating system reports a size of zero.
pub fn page_size() -> (size: Option<u64>)
    ensures
        size matches Some(n) ==> n > 0,
{
    accept_page_size(system_page_size())
}

/// The page size to work with, given the size that the operating system
/// reports: that size, or none where it is zero, for addresses cannot be
/// told apart by pages of no size.
pub open spec fn accepted_page_size(reported: usize) -> Option<u64> {
    if reported > 0 {
        Some(reported as u64)
    } else {
        None
    }
}

/// Decides on the page size to work with, given the size that the
/// operating system reports.
pub fn accept_page_size(reported: usize) -> (size: Option<u64>)
    ensures
        size == accepted_page_size(reported),
{
    if reported > 0 {
        Some(reported as u64)
    } else {
        None
    }
}

/// What the tracker remembers of a page: the fingerprint it was last seen
/// with.
#[derive(Debug, Clone, Copy, PartialEq, Eq, Structural)]
pub struct PageEntry {
    pub crc: u32,
}

/// How many pages each of the three buckets of a tracker holds.
#[derive(Debug, Clone, Copy, PartialEq, Eq, Structural)]
pub struct InfoStatus {
    pub new_count: u64,
    pub old_count: u64,
    pub uksm_count: u64,
}

impl Default for InfoStatus {
    fn default() -> (status: Self)
        ensures
            status == (InfoStatus { new_count: 0, old_count: 0, uksm_count: 0 }),
    {
        InfoStatus { new_count: 0, old_count: 0, uksm_count: 0 }
    }
}

/// One of the three buckets of a tracker.
#[derive(Debug, Clone, Copy, PartialEq, Eq, Structural)]
pub enum Bucket {
    /// Seen once, or seen with a fingerprint that had changed.
    New,
    /// Seen twice in a row with the same fingerprint.
    Old,
    /// Handed to the merge index.
    Merged,
}

/// A tracker as a value.
#[verifier::ext_equal]
pub struct Tracker {
    /// The process.
    pub pid: u64,
    /// The size of a page.
    pub page_size: u64,
    /// The memory areas in which pages were found at the last refresh.
    pub maps: Seq<MapRange>,
    /// The new pages by their address.
    pub new_pages: Map<u64, PageEntry>,
    /// The old pages by their address.
    pub old_pages: Map<u64, PageEntry>,
    /// The merged pages by their address.
    pub uksm_pages: Map<u64, PageEntry>,
}

impl Tracker {
    /// Where the tracker holds the page `addr`, and with which
    /// fingerprint.
    pub open spec fn find(self, addr: u64) -> Option<(Bucket, PageEntry)> {
        if self.new_pages.contains_key(addr) {
            Some((Bucket::New, self.new_pages[addr]))
        } else if self.old_pages.contains_key(addr) {
            Some((Bucket::Old, self.old_pages[addr]))
        } else if self.uksm_pages.contains_key(addr) {
            Some((Bucket::Merged, self.uksm_pages[addr]))
        } else {
            None
        }
    }

    /// No page is in two buckets.
    pub open spec fn disjoint(self) -> bool {
        &&& self.new_pages.dom().disjoint(self.old_pages.dom())
        &&& self.new_pages.dom().disjoint(self.uksm_pages.dom())
        &&& self.old_pages.dom().disjoint(self.uksm_pages.dom())
    }

    /// The tracker is one that the operations of this module keep: its
    /// page size is not zero, no page is in two buckets, and the buckets
    /// are finite.
    pub open spec fn wf(self) -> bool {
        &&& self.page_size > 0
        &&& self.disjoint()
        &&& self.new_pages.dom().finite()
        &&& self.old_pages.dom().finite()
        &&& self.uksm_pages.dom().finite()
    }
}

/// A tracker and the merge index, which the operations on a tracker change
/// together.
#[verifier::ext_equal]
pub struct State {
    pub info: Tracker,
    pub uksm: Index,
}

/// What it does to a tracker and the index that the page `addr` is gone: the
/// page leaves its bucket, and if that was the bucket of the merged pages,
/// it leaves the index too.
pub open spec fn dropped(s: State, addr: u64) -> State {
    let t = s.info;
    if t.new_pages.contains_key(addr) {
        State { info: Tracker { new_pages: t.new_pages.remove(addr), ..t }, ..s }
    } else if t.old_pages.contains_key(addr) {
        State { info: Tracker { old_pages: t.old_pages.remove(addr), ..t }, ..s }
    } else if t.uksm_pages.contains_key(addr) {
        State {
            info: Tracker { uksm_pages: t.uksm_pages.remove(addr), ..t },
            uksm: removed(s.uksm, PidAddr { pid: t.pid, addr }, t.uksm_pages[addr].crc),
        }
    } else {
        s
    }
}

/// What it does to a tracker and the index that the page `addr` is seen
/// with the fingerprint and the flags of `entry`.
///
/// - A page that the tracker does not hold becomes new.
/// - A new page with the same fingerprint becomes old; with another, it
///   stays new.
/// - An old page with the same fingerprint stays old; with another, it
///   becomes new.
/// - A merged page with the same fingerprint that the kernel still holds
///   in its merged pool stays merged; else it leaves the index and becomes
///   new.
///
/// In each case the page is remembered with the fingerprint it is seen
/// with.
pub open spec fn observed(s: State, addr: u64, entry: UKSMPagemapEntry) -> State {
    let t = s.info;
    let seen = PageEntry { crc: entry.crc };
    if t.new_pages.contains_key(addr) {
        if t.new_pages[addr].crc != entry.crc {
            State { info: Tracker { new_pages: t.new_pages.insert(addr, seen), ..t }, ..s }
        } else {
            State {
                info: Tracker {
                    new_pages: t.new_pages.remove(addr),
                    old_pages: t.old_pages.insert(addr, seen),
                    ..t
                },
                ..s
            }
        }
    } else if t.old_pages.contains_key(addr) {
        if t.old_pages[addr].crc != entry.crc {
            State {
                info: Tracker {
                    old_pages: t.old_pages.remove(addr),
                    new_pages: t.new_pages.insert(addr, seen),
                    ..t
                },
                ..s
            }
        } else {
            s
        }
    } else if t.uksm_pages.contains_key(addr) {
        if !entry.is_ksm || t.uksm_pages[addr].crc != entry.crc {
            State {
                info: Tracker {
                    uksm_pages: t.uksm_pages.remove(addr),
                    new_pages: t.new_pages.insert(addr, seen),
                    ..t
                },
                uksm: removed(s.uksm, PidAddr { pid: t.pid, addr }, t.uksm_pages[addr].crc),
            }
        } else {
            s
        }
    } else {
        State { info: Tracker { new_pages: t.new_pages.insert(addr, seen), ..t }, ..s }
    }
}

/// What it does to a tracker and the index that the pages `at`,
/// `at + page_size`, and so on below `end` are gone.
pub open spec fn dropped_pages(s: State, at: u64, end: u64) -> State
    decreases
            if at < end {
                end - at
            } else {
                0
            },
{
    if at >= end {
        s
    } else if s.info.page_size == 0 || end - at <= s.info.page_size {
        dropped(s, at)
    } else {
        dropped_pages(dropped(s, at), (at + s.info.page_size) as u64, end)
    }
}

/// What it does to a tracker and the index that the pages of the
/// intervals of `ranges` are gone.
pub open spec fn dropped_ranges(s: State, ranges: Seq<MapRange>) -> State
    decreases ranges.len(),
{
    if ranges.len() == 0 {
        s
    } else {
        dropped_pages(dropped_ranges(s, ranges.drop_last()), ranges.last().start, ranges.last().end)
    }
}

/// What the kernel reports of the pages of a memory area: one entry for
/// each page, in the order of the addresses, `None` for a page that is not
/// present.
pub type Sample = Seq<Option<UKSMPagemapEntry>>;

/// What it does to a tracker and the index that the pages `at`,
/// `at + page_size`, and so on are as `sample` reports them: a page that
/// is present is seen, a page that is not is gone.
pub open spec fn sampled(s: State, at: int, sample: Sample) -> State
    decreases sample.len(),
{
    if sample.len() == 0 {
        s
    } else {
        let next = match sample[0] {
            Some(entry) => observed(s, at as u64, entry),
            None => dropped(s, at as u64),
        };
        sampled(next, at + s.info.page_size, sample.skip(1))
    }
}

/// Whether a sample reports a page that is present.
pub open spec fn any_present(sample: Sample) -> bool {
    exists|i: int| 0 <= i < sample.len() && (#[trigger] sample[i]) is Some
}

/// How many pages the kernel reports of a memory area.
pub open spec fn page_count(range: MapRange, page_size: u64) -> nat {
    if page_size > 0 && range.end / page_size > range.start / page_size {
        (range.end / page_size - range.start / page_size) as nat
    } else {
        0
    }
}

/// Whether a sample is one of the memory area `range`: it has an entry
/// for each page of the area, and the addresses of its pages fit in 64
/// bits.
pub open spec fn fits(range: MapRange, sample: Sample, page_size: u64) -> bool {
    &&& sample.len() == page_count(range, page_size)
    &&& range.start + sample.len() * page_size <= u64::MAX
}

/// How many of the areas of `maps`, from the first on, have their sample:
/// the index of the first area whose sample is missing or does not fit.
pub open spec fn usable(maps: Seq<MapRange>, samples: Seq<Sample>, page_size: u64) -> nat
    decreases maps.len(),
{
    if maps.len() == 0 {
        0
    } else {
        let before = usable(maps.drop_last(), samples, page_size);
        if before == maps.len() - 1 && maps.len() <= samples.len() && fits(
            maps.last(),
            samples[maps.len() - 1],
            page_size,
        ) {
            maps.len()
        } else {
            before
        }
    }
}

/// What it does to a tracker and the index that the first `n` areas of
/// `maps` are as their samples report them, and which of these areas hold
/// a page that is present.
pub open spec fn sampled_ranges(s: State, maps: Seq<MapRange>, samples: Seq<Sample>, n: nat) -> (
    State,
    Seq<MapRange>,
)
    decreases n,
{
    if n == 0 {
        (s, Seq::empty())
    } else {
        let (before, kept) = sampled_ranges(s, maps, samples, (n - 1) as nat);
        (
            sampled(before, maps[n - 1].start as int, samples[n - 1]),
            if any_present(samples[n - 1]) {
                kept.push(maps[n - 1])
            } else {
                kept
            },
        )
    }
}

/// What a refresh does to a tracker and the index.  `maps` are the memory
/// areas of the process and `samples[i]` is what the kernel reports of the
/// pages of `maps[i]`.
///
/// First the pages are gone that lie in an area of the last refresh and in
/// none of `maps`.  Then the areas of `maps` are taken in turn, each with
/// its sample, up to the first area whose sample is missing or does not
/// fit.  If there is no such area, the tracker keeps the areas that hold a
/// page that is present; else it keeps the areas of the last refresh.
pub open spec fn refreshed(s: State, maps: Seq<MapRange>, samples: Seq<Sample>) -> State {
    let gone = dropped_ranges(s, subtract(s.info.maps, maps));
    let n = usable(maps, samples, s.info.page_size);
    let (after, kept) = sampled_ranges(gone, maps, samples, n);
    if n == maps.len() {
        State { info: Tracker { maps: kept, ..after.info }, ..after }
    } else {
        after
    }
}

/// How a refresh ends: well if every area has its sample; with
/// `KernelIoError` if the sample of an area is missing; with
/// `PagemapMalformed` if a sample does not fit its area.
pub open spec fn refresh_result(s: State, maps: Seq<MapRange>, samples: Seq<Sample>) -> Result<
    (),
    ErrorKind,
> {
    let n = usable(maps, samples, s.info.page_size);
    if n == maps.len() {
        Ok(())
    } else if n >= samples.len() {
        Err(ErrorKind::KernelIoError)
    } else {
        Err(ErrorKind::PagemapMalformed)
    }
}

/// The views of the samples of a list.
pub open spec fn sample_views(samples: Vec<Vec<Option<UKSMPagemapEntry>>>) -> Seq<Sample> {
    Seq::new(samples@.len(), |i: int| samples@[i]@)
}

/// A pass over the pages of a bucket: the pages that are still to be
/// taken, and what the kernel has answered about the page that the pass is
/// at.
#[derive(Debug)]
pub struct Pass {
    /// The addresses of the pages that are still to be taken.  The last
    /// one is taken first.
    pub todo: Vec<u64>,
    /// The answers of the kernel to the questions that were asked about
    /// the page that is taken first, in the order of the questions.
    pub verdicts: Vec<bool>,
}

/// Where a pass stands after a step.
#[verifier::ext_equal]
pub struct Step {
    /// The tracker and the index.
    pub state: State,
    /// The addresses of the pages that are still to be taken.
    pub todo: Seq<u64>,
    /// The answers about the page that is taken first.
    pub verdicts: Seq<bool>,
    /// What the kernel is to be asked or told next; `None` when the pass
    /// is over.  In a pass that merges, the first page is a page of the
    /// index and the second the page that the pass is at: the kernel is to
    /// be asked to merge the two if they hold the same bytes.  In a pass
    /// that unmerges, both are the page that the pass is at: the kernel is
    /// to be told to take it out of its merged set.
    pub ask: Option<(PidAddr, PidAddr)>,
}

/// The tracker with the page `addr` moved from the old pages to the merged
/// ones.
pub open spec fn promoted(t: Tracker, addr: u64) -> Tracker {
    Tracker {
        old_pages: t.old_pages.remove(addr),
        uksm_pages: t.uksm_pages.insert(addr, t.old_pages[addr]),
        ..t
    }
}

/// The tracker with the page `addr` moved from the merged pages to the old
/// ones.
pub open spec fn demoted(t: Tracker, addr: u64) -> Tracker {
    Tracker {
        uksm_pages: t.uksm_pages.remove(addr),
        old_pages: t.old_pages.insert(addr, t.uksm_pages[addr]),
        ..t
    }
}

/// A pass that merges, as far as the answers of the kernel allow.
///
/// The pages of `todo` are taken from the last one down.  A page that is
/// not old is passed over.  An old page is added to the index, with
/// `verdicts` as the answers of the kernel about it: where the index needs
/// another answer, the pass stops and asks; else the page is in the index
/// and becomes merged, and the pass goes on to the next page, about which
/// the kernel has answered nothing yet.
pub open spec fn merged_on(s: State, todo: Seq<u64>, verdicts: Seq<bool>) -> Step
    decreases todo.len(),
{
    if todo.len() == 0 {
        Step { state: s, todo, verdicts: Seq::empty(), ask: None }
    } else {
        let addr = todo.last();
        if !s.info.old_pages.contains_key(addr) {
            merged_on(s, todo.drop_last(), Seq::empty())
        } else {
            let page = PidAddr { pid: s.info.pid, addr };
            let (index, ask) = added(s.uksm, page, s.info.old_pages[addr].crc, verdicts);
            match ask {
                Some(member) => Step { state: s, todo, verdicts, ask: Some((member, page)) },
                None => merged_on(
                    State { info: promoted(s.info, addr), uksm: index },
                    todo.drop_last(),
                    Seq::empty(),
                ),
            }
        }
    }
}

/// A pass that unmerges, as far as the kernel has been told.
///
/// The pages of `todo` are taken from the last one down.  A page that is
/// not merged is passed over.  A merged page leaves the index and becomes
/// old once the kernel has taken it out of its merged set, which `released`
/// says of the page that is taken first; until then the pass stops at the
/// page.
pub open spec fn unmerged_on(s: State, todo: Seq<u64>, released: bool) -> Step
    decreases todo.len(),
{
    if todo.len() == 0 {
        Step { state: s, todo, verdicts: Seq::empty(), ask: None }
    } else {
        let addr = todo.last();
        if !s.info.uksm_pages.contains_key(addr) {
            unmerged_on(s, todo.drop_last(), false)
        } else {
            let page = PidAddr { pid: s.info.pid, addr };
            if released {
                unmerged_on(
                    State {
                        info: demoted(s.info, addr),
                        uksm: removed(s.uksm, page, s.info.uksm_pages[addr].crc),
                    },
                    todo.drop_last(),
                    false,
                )
            } else {
                Step { state: s, todo, verdicts: Seq::empty(), ask: Some((page, page)) }
            }
        }
    }
}

/// The tracker of one process.
#[derive(Debug)]
pub struct Info {
    pid: u64,
    page_size: u64,
    maps: Vec<MapRange>,
    new_pages: HashMap<u64, PageEntry>,
    old_pages: HashMap<u64, PageEntry>,
    uksm_pages: HashMap<u64, PageEntry>,
}

impl View for Info {
    type V = Tracker;

    closed spec fn view(&self) -> Tracker {
        Tracker {
            pid: self.pid,
            page_size: self.page_size,
            maps: self.maps@,
            new_pages: self.new_pages@,
            old_pages: self.old_pages@,
            uksm_pages: self.uksm_pages@,
        }
    }
}

/// A tracker and an index as one value.
pub open spec fn state(info: Info, uksm: Uksm) -> State {
    State { info: info@, uksm: uksm@ }
}

impl Info {
    /// See `Tracker::wf`.
    pub open spec fn wf(&self) -> bool {
        self@.wf()
    }

    /// A tracker for the process `pid` that holds no page.
    pub fn new(pid: u64, page_size: u64) -> (info: Self)
        requires
            page_size > 0,
        ensures
            info.wf(),
            info@ == (Tracker {
                pid,
                page_size,
                maps: Seq::empty(),
                new_pages: Map::empty(),
                old_pages: Map::empty(),
                uksm_pages: Map::empty(),
            }),
    {
        Self {
            pid,
            page_size,
            maps: Vec::new(),
            new_pages: HashMap::new(),
            old_pages: HashMap::new(),
            uksm_pages: HashMap::new(),
        }
    }

    /// The process.
    pub fn pid(&self) -> (pid: u64)
        ensures
            pid == self@.pid,
    {
        self.pid
    }

    /// The page is gone: it leaves its bucket and, if it was merged, the
    /// index.
    pub fn remove(&mut self, uksm: &mut Uksm, addr: u64)
        requires
            old(self).wf(),
            old(uksm).wf(),
        ensures
            state(*final(self), *final(uksm)) == dropped(state(*old(self), *old(uksm)), addr),
            final(self).wf(),
            final(uksm).wf(),
    {
        let ghost before = state(*self, *uksm);
        if self.new_pages.remove(&addr).is_some() {
            assert(state(*self, *uksm) =~= dropped(before, addr));
            return ;
        }
        if self.old_pages.remove(&addr).is_some() {
            assert(state(*self, *uksm) =~= dropped(before, addr));
            return ;
        }
        if let Some(e) = self.uksm_pages.remove(&addr) {
            uksm.remove(self.pid, addr, e.crc);
        }
        assert(state(*self, *uksm) =~= dropped(before, addr));
    }

    /// The page is seen with the fingerprint and the flags of `entry`.
    pub fn update(&mut self, uksm: &mut Uksm, addr: u64, entry: UKSMPagemapEntry)
        requires
            old(self).wf(),
            old(uksm).wf(),
        ensures
            state(*final(self), *final(uksm)) == observed(
                state(*old(self), *old(uksm)),
                addr,
                entry,
            ),
            final(self).wf(),
            final(uksm).wf(),
    {
        let seen = PageEntry { crc: entry.crc };
        let ghost before = state(*self, *uksm);
        if let Some(e) = self.new_pages.get(&addr) {
            if e.crc != entry.crc {
                self.new_pages.insert(addr, seen);
            } else {
                self.new_pages.remove(&addr);
                self.old_pages.insert(addr, seen);
            }
            assert(state(*self, *uksm) =~= observed(before, addr, entry));
            return ;
        }
        if let Some(e) = self.old_pages.get(&addr) {
            if e.crc != entry.crc {
                self.old_pages.remove(&addr);
                self.new_pages.insert(addr, seen);
            }
            assert(state(*self, *uksm) =~= observed(before, addr, entry));
            return ;
        }
        if let Some(e) = self.uksm_pages.get(&addr) {
            if !entry.is_ksm || e.crc != entry.crc {
                uksm.remove(self.pid, addr, e.crc);
                self.uksm_pages.remove(&addr);
                self.new_pages.insert(addr, seen);
            }
            assert(state(*self, *uksm) =~= observed(before, addr, entry));
            return ;
        }
        self.new_pages.insert(addr, seen);
        assert(state(*self, *uksm) =~= observed(before, addr, entry));
    }

    /// The pages of the intervals of `maps` are gone.
    pub fn remove_maps(&mut self, uksm: &mut Uksm, maps: Vec<MapRange>)
        requires
            old(self).wf(),
            old(uksm).wf(),
        ensures
            state(*final(self), *final(uksm)) == dropped_ranges(
                state(*old(self), *old(uksm)),
                maps@,
            ),
            final(self).wf(),
            final(uksm).wf(),
    {
        let ghost before = state(*self, *uksm);
        let mut i: usize = 0;
        while i < maps.len()
            invariant
                i <= maps@.len(),
                self.wf(),
                uksm.wf(),
                state(*self, *uksm) == dropped_ranges(before, maps@.take(i as int)),
            decreases maps@.len() - i,
        {
            let end = maps[i].end;
            let mut addr = maps[i].start;
            let ghost start = state(*self, *uksm);
            let mut more = addr < end;
            proof {
                assert(maps@.take(i + 1).drop_last() =~= maps@.take(i as int));
            }
            while more
                invariant
                    self.wf(),
                    uksm.wf(),
                    start.info.page_size == self@.page_size,
                    more ==> addr < end,
                    more ==> dropped_pages(state(*self, *uksm), addr, end) == dropped_pages(
                        start,
                        maps@[i as int].start,
                        end,
                    ),
                    !more ==> state(*self, *uksm) == dropped_pages(
                        start,
                        maps@[i as int].start,
                        end,
                    ),
                    i < maps@.len(),
                decreases
                        if more {
                            end - addr + 1
                        } else {
                            0
                        },
            {
                self.remove(uksm, addr);
                if end - addr <= self.page_size {
                    more = false;
                } else {
                    addr += self.page_size;
                }
            }
            i += 1;
        }
        assert(maps@.take(i as int) =~= maps@);
    }

    /// The pages `at`, `at + page_size`, and so on are as `sample` reports
    /// them.
    pub fn apply_sample(&mut self, uksm: &mut Uksm, at: u64, sample: &Vec<Option<UKSMPagemapEntry>>) -> (present:
        bool)
        requires
            old(self).wf(),
            old(uksm).wf(),
            at + sample@.len() * old(self)@.page_size <= u64::MAX,
        ensures
            state(*final(self), *final(uksm)) == sampled(
                state(*old(self), *old(uksm)),
                at as int,
                sample@,
            ),
            present == any_present(sample@),
            final(self).wf(),
            final(uksm).wf(),
    {
        let ghost before = state(*self, *uksm);
        let mut addr = at;
        let mut present = false;
        let mut i: usize = 0;
        assert(sample@.skip(0) =~= sample@);
        while i < sample.len()
            invariant
                i <= sample@.len(),
                self.wf(),
                uksm.wf(),
                self@.page_size == before.info.page_size,
                addr + (sample@.len() - i) * self@.page_size <= u64::MAX,
                sampled(state(*self, *uksm), addr as int, sample@.skip(i as int)) == sampled(
                    before,
                    at as int,
                    sample@,
                ),
                present == any_present(sample@.take(i as int)),
            decreases sample@.len() - i,
        {
            proof {
                assert(sample@.skip(i as int).skip(1) =~= sample@.skip(i + 1));
                let left = sample@.len() - i;
                let size = self@.page_size;
                assert(left * size == size + (left - 1) * size) by (nonlinear_arith);
                assert((left - 1) * size >= 0) by (nonlinear_arith)
                    requires
                        left >= 1,
                        size >= 0,
                ;
                let seen = sample@.take(i as int);
                let more = sample@.take(i + 1);
                if any_present(seen) {
                    let j = choose|j: int| 0 <= j < seen.len() && (#[trigger] seen[j]) is Some;
                    assert(more[j] is Some);
                }
                if sample@[i as int] is Some {
                    assert(more[i as int] is Some);
                }
                if any_present(more) {
                    let j = choose|j: int| 0 <= j < more.len() && (#[trigger] more[j]) is Some;
                    if j < i {
                        assert(seen[j] is Some);
                    }
                }
            }
            match sample[i] {
                Some(entry) => {
                    present = true;
                    self.update(uksm, addr, entry);
                },
                None => {
                    self.remove(uksm, addr);
                },
            }
            addr += self.page_size;
            i += 1;
        }
        assert(sample@.take(i as int) =~= sample@);
        present
    }

    /// Takes in what the kernel reports of the process: its memory areas
    /// and, for each area, the sample of its pages.  See `refreshed` for what
    /// that does, and `refresh_result` for how it ends.
    ///
    /// The samples are those that could be read: where reading the sample
    /// of an area fails, `samples` ends before it.
    pub fn refresh(
        &mut self,
        uksm: &mut Uksm,
        maps: Vec<MapRange>,
        samples: &Vec<Vec<Option<UKSMPagemapEntry>>>,
    ) -> (r: Result<(), ErrorKind>)
        requires
            old(self).wf(),
            old(uksm).wf(),
        ensures
            state(*final(self), *final(uksm)) == refreshed(
                state(*old(self), *old(uksm)),
                maps@,
                sample_views(*samples),
            ),
            r == refresh_result(state(*old(self), *old(uksm)), maps@, sample_views(*samples)),
            final(self).wf(),
            final(uksm).wf(),
    {
        let ghost before = state(*self, *uksm);
        let ghost views = sample_views(*samples);
        let gone = find_non_overlapping_ranges(&self.maps, &maps);
        self.remove_maps(uksm, gone);
        let ghost start = state(*self, *uksm);
        let mut kept: Vec<MapRange> = Vec::new();
        let mut i: usize = 0;
        proof {
            lemma_dropped_ranges_frame(before, gone@);
        }
        while i < maps.len()
            invariant
                i <= maps@.len(),
                self.wf(),
                uksm.wf(),
                views == sample_views(*samples),
                before == state(*old(self), *old(uksm)),
                before.info.page_size > 0,
                start == dropped_ranges(before, subtract(before.info.maps, maps@)),
                same_process(before.info, start.info),
                self@.page_size == before.info.page_size,
                self@.maps == before.info.maps,
                usable(maps@.take(i as int), views, self@.page_size) == i,
                (state(*self, *uksm), kept@) == sampled_ranges(start, maps@, views, i as nat),
            decreases maps@.len() - i,
        {
            if i >= samples.len() {
                proof {
                    lemma_usable_stops(maps@, views, self@.page_size, i as int);
                }
                return Err(ErrorKind::KernelIoError);
            }
            let sample = &samples[i];
            assert(views[i as int] == sample@);
            if !sample_fits(&maps[i], sample.len(), self.page_size) {
                proof {
                    lemma_usable_stops(maps@, views, self@.page_size, i as int);
                }
                return Err(ErrorKind::PagemapMalformed);
            }
            proof {
                lemma_sampled_frame(state(*self, *uksm), maps@[i as int].start as int, sample@);
            }
            let present = self.apply_sample(uksm, maps[i].start, sample);
            if present {
                kept.push(maps[i]);
            }
            proof {
                assert(maps@.take(i + 1).drop_last() =~= maps@.take(i as int));
            }
            i += 1;
        }
        assert(maps@.take(i as int) =~= maps@);
        self.maps = kept;
        assert(state(*self, *uksm) =~= refreshed(before, maps@, views));
        Ok(())
    }

    /// Begins a pass over the old pages.
    pub fn merge_pass(&self) -> (pass: Pass)
        ensures
            pass.todo@.no_duplicates(),
            pass.todo@.to_set() == self@.old_pages.dom(),
            pass.verdicts@.len() == 0,
    {
        Pass { todo: keys_of(&self.old_pages), verdicts: Vec::new() }
    }

    /// Begins a pass over the merged pages.
    pub fn unmerge_pass(&self) -> (pass: Pass)
        ensures
            pass.todo@.no_duplicates(),
            pass.todo@.to_set() == self@.uksm_pages.dom(),
            pass.verdicts@.len() == 0,
    {
        Pass { todo: keys_of(&self.uksm_pages), verdicts: Vec::new() }
    }

    /// Goes on with a pass that merges: hands each old page of the pass to
    /// the index and makes it a merged page.
    ///
    /// `verdict` is the answer of the kernel to the question that the last
    /// step asked, if it asked one.  The result is the next question: a
    /// page of the index and the page that the pass is at, which the
    /// kernel is to merge if they hold the same bytes.  `None` says that
    /// the pass is over.
    pub fn merge(&mut self, uksm: &mut Uksm, pass: &mut Pass, verdict: Option<bool>) -> (ask:
        Option<(PidAddr, PidAddr)>)
        requires
            old(self).wf(),
            old(uksm).wf(),
        ensures
            (Step {
                state: state(*final(self), *final(uksm)),
                todo: final(pass).todo@,
                verdicts: final(pass).verdicts@,
                ask,
            }) == merged_on(
                state(*old(self), *old(uksm)),
                old(pass).todo@,
                match verdict {
                    Some(answer) => old(pass).verdicts@.push(answer),
                    None => old(pass).verdicts@,
                },
            ),
            final(self).wf(),
            final(uksm).wf(),
    {
        if let Some(answer) = verdict {
            pass.verdicts.push(answer);
        }
        let ghost goal = merged_on(state(*self, *uksm), pass.todo@, pass.verdicts@);
        while pass.todo.len() > 0
            invariant
                self.wf(),
                uksm.wf(),
                goal == merged_on(
                    state(*old(self), *old(uksm)),
                    old(pass).todo@,
                    match verdict {
                        Some(answer) => old(pass).verdicts@.push(answer),
                        None => old(pass).verdicts@,
                    },
                ),
                merged_on(state(*self, *uksm), pass.todo@, pass.verdicts@) == goal,
            decreases pass.todo@.len(),
        {
            let addr = pass.todo[pass.todo.len() - 1];
            let entry = match self.old_pages.get(&addr) {
                Some(e) => Some(*e),
                None => None,
            };
            if let Some(e) = entry {
                let ghost before = state(*self, *uksm);
                if let Some(member) = uksm.add(self.pid, addr, &e, pass.verdicts.as_slice()) {
                    assert(state(*self, *uksm) =~= before);
                    return Some((member, PidAddr { pid: self.pid, addr }));
                }
                self.old_pages.remove(&addr);
                self.uksm_pages.insert(addr, e);
                assert(self@ =~= promoted(before.info, addr));
            }
            pass.todo.pop();
            pass.verdicts.clear();
        }
        pass.verdicts.clear();
        None
    }

    /// Goes on with a pass that unmerges: takes each merged page of the
    /// pass out of the index and makes it an old page, once the kernel has
    /// taken it out of its merged set.
    ///
    /// `released` says whether the kernel has done so for the page that the
    /// last step asked for.  The result is the page that the kernel is to
    /// take out next, given twice.  `None` says that the pass is over.
    pub fn unmerge(&mut self, uksm: &mut Uksm, pass: &mut Pass, released: bool) -> (ask: Option<
        (PidAddr, PidAddr),
    >)
        requires
            old(self).wf(),
            old(uksm).wf(),
        ensures
            (Step {
                state: state(*final(self), *final(uksm)),
                todo: final(pass).todo@,
                verdicts: final(pass).verdicts@,
                ask,
            }) == unmerged_on(state(*old(self), *old(uksm)), old(pass).todo@, released),
            final(self).wf(),
            final(uksm).wf(),
    {
        let ghost goal = unmerged_on(state(*self, *uksm), pass.todo@, released);
        let mut free = released;
        pass.verdicts.clear();
        while pass.todo.len() > 0
            invariant
                self.wf(),
                uksm.wf(),
                pass.verdicts@.len() == 0,
                goal == unmerged_on(state(*old(self), *old(uksm)), old(pass).todo@, released),
                unmerged_on(state(*self, *uksm), pass.todo@, free) == goal,
            decreases pass.todo@.len(),
        {
            let addr = pass.todo[pass.todo.len() - 1];
            let entry = match self.uksm_pages.get(&addr) {
                Some(e) => Some(*e),
                None => None,
            };
            if let Some(e) = entry {
                let page = PidAddr { pid: self.pid, addr };
                if !free {
                    assert(pass.verdicts@ =~= Seq::<bool>::empty());
                    return Some((page, page));
                }
                let ghost before = state(*self, *uksm);
                uksm.remove(self.pid, addr, e.crc);
                self.uksm_pages.remove(&addr);
                self.old_pages.insert(addr, e);
                assert(self@ =~= demoted(before.info, addr));
            }
            free = false;
            pass.todo.pop();
        }
        assert(pass.verdicts@ =~= Seq::<bool>::empty());
        None
    }

    /// How many pages each bucket holds.
    pub fn get_status(&self) -> (status: InfoStatus)
        ensures
            status.new_count == self@.new_pages.dom().len(),
            status.old_count == self@.old_pages.dom().len(),
            status.uksm_count == self@.uksm_pages.dom().len(),
    {
        InfoStatus {
            new_count: self.new_pages.len() as u64,
            old_count: self.old_pages.len() as u64,
            uksm_count: self.uksm_pages.len() as u64,
        }
    }

    /// Where the tracker holds the page `addr`, and with which
    /// fingerprint.
    pub fn lookup(&self, addr: u64) -> (found: Option<(Bucket, PageEntry)>)
        ensures
            found == self@.find(addr),
    {
        if let Some(e) = self.new_pages.get(&addr) {
            return Some((Bucket::New, *e));
        }
        if let Some(e) = self.old_pages.get(&addr) {
            return Some((Bucket::Old, *e));
        }
        if let Some(e) = self.uksm_pages.get(&addr) {
            return Some((Bucket::Merged, *e));
        }
        None
    }
}

/// The furthest end of the intervals of `b` that hold the address `at`;
/// `at` itself where none holds it.
pub open spec fn reach(at: u64, b: Seq<MapRange>) -> u64
    decreases b.len(),
{
    if b.len() == 0 {
        at
    } else {
        let before = reach(at, b.drop_last());
        let last = b.last();
        if last.start <= at < last.end && last.end > before {
            last.end
        } else {
            before
        }
    }
}

/// The least address after `at` and before `end` at which an interval of
/// `b` begins that is not empty; `end` where there is none.
pub open spec fn obstacle(at: u64, end: u64, b: Seq<MapRange>) -> u64
    decreases b.len(),
{
    if b.len() == 0 {
        end
    } else {
        let before = obstacle(at, end, b.drop_last());
        let last = b.last();
        if last.start < last.end && at < last.start < before {
            last.start
        } else {
            before
        }
    }
}

/// The parts of `[at, end)` that no interval of `b` covers, from the lowest
/// up, each as long as it can be.
pub open spec fn gaps(at: u64, end: u64, b: Seq<MapRange>) -> Seq<MapRange>
    decreases
            if at < end {
                end - at
            } else {
                0
            },
    via gaps_terminates
{
    if at >= end {
        Seq::empty()
    } else if reach(at, b) > at {
        gaps(reach(at, b), end, b)
    } else {
        seq![MapRange { start: at, end: obstacle(at, end, b) }] + gaps(obstacle(at, end, b), end, b)
    }
}

#[via_fn]
proof fn gaps_terminates(at: u64, end: u64, b: Seq<MapRange>) {
    if at < end {
        lemma_obstacle(at, end, b);
    }
}

/// The next obstacle lies after the address and not after the end.
pub proof fn lemma_obstacle(at: u64, end: u64, b: Seq<MapRange>)
    requires
        at < end,
    ensures
        at < obstacle(at, end, b) <= end,
    decreases b.len(),
{
    if b.len() > 0 {
        lemma_obstacle(at, end, b.drop_last());
    }
}

/// What is left of the intervals of `a` when the intervals of `b` are
/// taken away: for each interval of `a` in turn, its parts that no interval
/// of `b` covers.
pub open spec fn subtract(a: Seq<MapRange>, b: Seq<MapRange>) -> Seq<MapRange>
    decreases a.len(),
{
    if a.len() == 0 {
        Seq::empty()
    } else {
        subtract(a.drop_last(), b) + gaps(a.last().start, a.last().end, b)
    }
}

/// Computes `reach`.
pub fn reach_of(at: u64, b: &Vec<MapRange>) -> (r: u64)
    ensures
        r == reach(at, b@),
{
    let mut r = at;
    let mut i: usize = 0;
    while i < b.len()
        invariant
            i <= b@.len(),
            r == reach(at, b@.take(i as int)),
        decreases b@.len() - i,
    {
        assert(b@.take(i + 1).drop_last() =~= b@.take(i as int));
        if b[i].start <= at && at < b[i].end && b[i].end > r {
            r = b[i].end;
        }
        i += 1;
    }
    assert(b@.take(i as int) =~= b@);
    r
}

/// Computes `obstacle`.
pub fn obstacle_of(at: u64, end: u64, b: &Vec<MapRange>) -> (r: u64)
    ensures
        r == obstacle(at, end, b@),
{
    let mut r = end;
    let mut i: usize = 0;
    while i < b.len()
        invariant
            i <= b@.len(),
            r == obstacle(at, end, b@.take(i as int)),
        decreases b@.len() - i,
    {
        assert(b@.take(i + 1).drop_last() =~= b@.take(i as int));
        if b[i].start < b[i].end && at < b[i].start && b[i].start < r {
            r = b[i].start;
        }
        i += 1;
    }
    assert(b@.take(i as int) =~= b@);
    r
}

/// What is left of the intervals of `a` when the intervals of `b` are
/// taken away.
pub fn find_non_overlapping_ranges(a: &Vec<MapRange>, b: &Vec<MapRange>) -> (c: Vec<MapRange>)
    ensures
        c@ == subtract(a@, b@),
{
    let mut c: Vec<MapRange> = Vec::new();
    let mut i: usize = 0;
    while i < a.len()
        invariant
            i <= a@.len(),
            c@ == subtract(a@.take(i as int), b@),
        decreases a@.len() - i,
    {
        let end = a[i].end;
        let mut at = a[i].start;
        let ghost done = c@;
        while at < end
            invariant
                i < a@.len(),
                c@ + gaps(at, end, b@) == done + gaps(a@[i as int].start, end, b@),
            decreases
                    if at < end {
                        end - at
                    } else {
                        0
                    },
        {
            let r = reach_of(at, b);
            if r > at {
                at = r;
            } else {
                proof {
                    lemma_obstacle(at, end, b@);
                }
                let next = obstacle_of(at, end, b);
                let ghost before = c@;
                c.push(MapRange { start: at, end: next });
                assert(c@ + gaps(next, end, b@) =~= before + gaps(at, end, b@));
                at = next;
            }
        }
        proof {
            assert(c@ + gaps(at, end, b@) =~= c@);
            assert(a@.take(i + 1).drop_last() =~= a@.take(i as int));
        }
        i += 1;
    }
    assert(a@.take(i as int) =~= a@);
    c
}

/// Tests whether a sample of `len` entries is one of the memory area
/// `range`.
pub fn sample_fits(range: &MapRange, len: usize, page_size: u64) -> (r: bool)
    requires
        page_size > 0,
    ensures
        r == (len == page_count(*range, page_size) && range.start + len * page_size <= u64::MAX),
{
    let first = range.start / page_size;
    let last = range.end / page_size;
    let count: u64 = if last > first {
        last - first
    } else {
        0
    };
    if len as u64 != count {
        return false;
    }
    match count.checked_mul(page_size) {
        Some(span) => range.start.checked_add(span).is_some(),
        None => {
            assert(range.start + len * page_size > u64::MAX) by (nonlinear_arith)
                requires
                    len * page_size > u64::MAX,
                    range.start >= 0,
            ;
            false
        },
    }
}

/// Once an area is without a sample that fits, no later area counts.
pub proof fn lemma_usable_stops(maps: Seq<MapRange>, samples: Seq<Sample>, page_size: u64, i: int)
    requires
        0 <= i < maps.len(),
        usable(maps.take(i), samples, page_size) == i,
        !(i < samples.len() && fits(maps[i], samples[i], page_size)),
    ensures
        usable(maps, samples, page_size) == i,
    decreases maps.len(),
{
    let front = maps.drop_last();
    if i == maps.len() - 1 {
        assert(maps.take(i) =~= front);
    } else {
        assert(front.take(i) =~= maps.take(i));
        lemma_usable_stops(front, samples, page_size, i);
    }
}

/// Whether two trackers are of the same process, with the same page
/// size and the same memory areas.
pub open spec fn same_process(a: Tracker, b: Tracker) -> bool {
    &&& a.pid == b.pid
    &&& a.page_size == b.page_size
    &&& a.maps == b.maps
}

/// Pages that go leave the process, the page size and the areas of a
/// tracker as they are.
pub proof fn lemma_dropped_pages_frame(s: State, at: u64, end: u64)
    ensures
        same_process(s.info, dropped_pages(s, at, end).info),
    decreases
            if at < end {
                end - at
            } else {
                0
            },
{
    if at < end && !(s.info.page_size == 0 || end - at <= s.info.page_size) {
        lemma_dropped_pages_frame(dropped(s, at), (at + s.info.page_size) as u64, end);
    }
}

/// Pages that go leave the process, the page size and the areas of a
/// tracker as they are.
pub proof fn lemma_dropped_ranges_frame(s: State, ranges: Seq<MapRange>)
    ensures
        same_process(s.info, dropped_ranges(s, ranges).info),
    decreases ranges.len(),
{
    if ranges.len() > 0 {
        lemma_dropped_ranges_frame(s, ranges.drop_last());
        lemma_dropped_pages_frame(
            dropped_ranges(s, ranges.drop_last()),
            ranges.last().start,
            ranges.last().end,
        );
    }
}

/// A sample leaves the process, the page size and the areas of a tracker
/// as they are.
pub proof fn lemma_sampled_frame(s: State, at: int, sample: Sample)
    ensures
        same_process(s.info, sampled(s, at, sample).info),
    decreases sample.len(),
{
    if sample.len() > 0 {
        let next = match sample[0] {
            Some(entry) => observed(s, at as u64, entry),
            None => dropped(s, at as u64),
        };
        lemma_sampled_frame(next, at + s.info.page_size, sample.skip(1));
    }
}

/// The addresses of a bucket, each once, in the order in which the bucket
/// hands them out.
pub fn keys_of<V>(bucket: &HashMap<u64, V>) -> (keys: Vec<u64>)
    ensures
        keys@.no_duplicates(),
        keys@.to_set() == bucket@.dom(),
{
    let mut keys: Vec<u64> = Vec::new();
    let ghost all = IteratorSpec::remaining(&spec_keys_iter(bucket));
    for k in it: bucket.keys()
        invariant
            it.seq() == all,
            keys@ == all.take(it.index() as int).unref(),
    {
        keys.push(*k);
    }
    assert(keys@ == all.unref());
    assert(all.unref().to_set() == bucket@.dom());
    keys
}

/// Samples leave the process, the page size and the areas of a tracker as
/// they are.
pub proof fn lemma_sampled_ranges_frame(s: State, maps: Seq<MapRange>, samples: Seq<Sample>, n: nat)
    ensures
        same_process(s.info, sampled_ranges(s, maps, samples, n).0.info),
    decreases n,
{
    if n > 0 {
        lemma_sampled_ranges_frame(s, maps, samples, (n - 1) as nat);
        lemma_sampled_frame(
            sampled_ranges(s, maps, samples, (n - 1) as nat).0,
            maps[n - 1].start as int,
            samples[n - 1],
        );
    }
}

/// A refresh leaves the process and the page size of a tracker as they
/// are.
pub proof fn lemma_refreshed_frame(s: State, maps: Seq<MapRange>, samples: Seq<Sample>)
    ensures
        refreshed(s, maps, samples).info.pid == s.info.pid,
        refreshed(s, maps, samples).info.page_size == s.info.page_size,
{
    let gone = dropped_ranges(s, subtract(s.info.maps, maps));
    lemma_dropped_ranges_frame(s, subtract(s.info.maps, maps));
    lemma_sampled_ranges_frame(gone, maps, samples, usable(maps, samples, s.info.page_size));
}

/// A pass that merges leaves the process, the page size and the areas of
/// a tracker as they are.
pub proof fn lemma_merged_on_frame(s: State, todo: Seq<u64>, verdicts: Seq<bool>)
    ensures
        same_process(s.info, merged_on(s, todo, verdicts).state.info),
    decreases todo.len(),
{
    if todo.len() > 0 {
        let addr = todo.last();
        if !s.info.old_pages.contains_key(addr) {
            lemma_merged_on_frame(s, todo.drop_last(), Seq::empty());
        } else {
            let page = PidAddr { pid: s.info.pid, addr };
            let (index, ask) = added(s.uksm, page, s.info.old_pages[addr].crc, verdicts);
            if ask is None {
                lemma_merged_on_frame(
                    State { info: promoted(s.info, addr), uksm: index },
                    todo.drop_last(),
                    Seq::empty(),
                );
            }
        }
    }
}

/// A pass that unmerges leaves the process, the page size and the areas
/// of a tracker as they are.
pub proof fn lemma_unmerged_on_frame(s: State, todo: Seq<u64>, released: bool)
    ensures
        same_process(s.info, unmerged_on(s, todo, released).state.info),
    decreases todo.len(),
{
    if todo.len() > 0 {
        let addr = todo.last();
        if !s.info.uksm_pages.contains_key(addr) {
            lemma_unmerged_on_frame(s, todo.drop_last(), false);
        } else if released {
            let page = PidAddr { pid: s.info.pid, addr };
            lemma_unmerged_on_frame(
                State {
                    info: demoted(s.info, addr),
                    uksm: removed(s.uksm, page, s.info.uksm_pages[addr].crc),
                },
                todo.drop_last(),
                false,
            );
        }
    }
}

} // verus!
