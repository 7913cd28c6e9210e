//! Refreshing a tracker again and again over the same pages.

use crate::page::{
    any_present, dropped, dropped_pages, dropped_ranges, fits, gaps, lemma_obstacle, observed,
    obstacle, page_count, reach, refreshed, sampled, sampled_ranges, subtract, usable, Bucket,
    PageEntry, Sample, State, Tracker,
};
use crate::proc::MapRange;
use crate::tracker_lemmas::{
    lemma_dropped_ranges_sound, lemma_dropped_sound, lemma_observed_sound,
    lemma_sampled_ranges_sound, sound,
};
use crate::uksm::UKSMPagemapEntry;
use vstd::prelude::*;

verus! {

/// Two multiples of a page size that differ are a page apart or more.
pub proof fn lemma_aligned_apart(a: int, b: int, size: int)
    requires
        size > 0,
        a % size == 0,
        b % size == 0,
        a < b,
    ensures
        a + size <= b,
        (a + size) % size == 0,
{
    vstd::arithmetic::div_mod::lemma_fundamental_div_mod(a, size);
    vstd::arithmetic::div_mod::lemma_fundamental_div_mod(b, size);
    assert(a / size < b / size) by (nonlinear_arith)
        requires
            size > 0,
            size * (a / size) < size * (b / size),
    ;
    assert(size * (a / size) + size <= size * (b / size)) by (nonlinear_arith)
        requires
            size > 0,
            a / size < b / size,
    ;
    vstd::arithmetic::div_mod::lemma_mod_multiples_vanish(1, a, size);
    assert(size * 1 + a == a + size);
}

/// The pages of an area that begins and ends at multiples of the page
/// size: the area holds `page_count` of them, one at each multiple of the
/// page size.
pub proof fn lemma_pages_of(range: MapRange, size: u64)
    requires
        range.wf(size),
    ensures
        range.start + page_count(range, size) * size == range.end,
        page_count(range, size) > 0,
{
    let s = range.start as int;
    let e = range.end as int;
    let p = size as int;
    vstd::arithmetic::div_mod::lemma_fundamental_div_mod(s, p);
    vstd::arithmetic::div_mod::lemma_fundamental_div_mod(e, p);
    assert(p * (e / p) - p * (s / p) == (e / p - s / p) * p) by (nonlinear_arith);
    assert(e / p > s / p) by (nonlinear_arith)
        requires
            p > 0,
            p * (s / p) < p * (e / p),
    ;
}

/// Where a multiple of the page size stands among the pages that begin at
/// another one.
pub proof fn lemma_slot_of(a: int, start: int, size: int)
    requires
        size > 0,
        a % size == 0,
        start % size == 0,
        start <= a,
    ensures
        a == start + ((a - start) / size) * size,
        (a - start) / size >= 0,
{
    let x = a - start;
    vstd::arithmetic::div_mod::lemma_sub_mod_noop(a, start, size);
    assert(0int % size == 0) by (nonlinear_arith)
        requires
            size > 0,
    ;
    assert(x % size == 0);
    vstd::arithmetic::div_mod::lemma_fundamental_div_mod(x, size);
    vstd::arithmetic::div_mod::lemma_div_pos_is_pos(x, size);
    assert(size * (x / size) == (x / size) * size) by (nonlinear_arith);
}

/// The page with the index `j` after a multiple of the page size.
pub proof fn lemma_slot(start: int, j: int, size: int)
    requires
        size > 0,
        start % size == 0,
        j >= 0,
    ensures
        (start + j * size) % size == 0,
        start + j * size >= start,
        start + (j + 1) * size == start + j * size + size,
{
    vstd::arithmetic::div_mod::lemma_mod_multiples_vanish(j, start, size);
    assert(size * j + start == start + j * size) by (nonlinear_arith);
    assert(j * size >= 0) by (nonlinear_arith)
        requires
            size > 0,
            j >= 0,
    ;
    assert(start + (j + 1) * size == start + j * size + size) by (nonlinear_arith);
}

/// Pages with different indices have different addresses, in the order of
/// the indices.
pub proof fn lemma_slots_ordered(start: int, i: int, j: int, size: int)
    requires
        size > 0,
        i < j,
    ensures
        start + i * size < start + j * size,
        start + i * size + size <= start + j * size,
{
    assert(start + i * size + size <= start + j * size) by (nonlinear_arith)
        requires
            size > 0,
            i < j,
    ;
}

/// Where a tracker holds a page, and with which fingerprint, after the
/// page was reported as `seen`, given where it held the page before.
pub open spec fn moved(before: Option<(Bucket, PageEntry)>, seen: Option<UKSMPagemapEntry>) -> Option<
    (Bucket, PageEntry),
> {
    match seen {
        None => None,
        Some(entry) => {
            let fresh = Some((Bucket::New, PageEntry { crc: entry.crc }));
            match before {
                None => fresh,
                Some((Bucket::New, had)) => if had.crc == entry.crc {
                    Some((Bucket::Old, PageEntry { crc: entry.crc }))
                } else {
                    fresh
                },
                Some((Bucket::Old, had)) => if had.crc == entry.crc {
                    before
                } else {
                    fresh
                },
                Some((Bucket::Merged, had)) => if entry.is_ksm && had.crc == entry.crc {
                    before
                } else {
                    fresh
                },
            }
        },
    }
}

/// Whether a page that is reported as `seen` stays where the tracker
/// holds it: a page that is not present is not held; a page that is present
/// is old or merged with the fingerprint it is seen with, and if it is
/// merged, the kernel holds it in its merged pool.
pub open spec fn calm(held: Option<(Bucket, PageEntry)>, seen: Option<UKSMPagemapEntry>) -> bool {
    match seen {
        None => held is None,
        Some(entry) => match held {
            Some((Bucket::Old, had)) => had.crc == entry.crc,
            Some((Bucket::Merged, had)) => had.crc == entry.crc && entry.is_ksm,
            _ => false,
        },
    }
}

/// A page that is reported twice in the same way stays where it is from
/// then on.
pub proof fn lemma_moved_twice(before: Option<(Bucket, PageEntry)>, seen: Option<UKSMPagemapEntry>)
    ensures
        calm(moved(moved(before, seen), seen), seen),
        forall|held: Option<(Bucket, PageEntry)>| #[trigger]
            calm(held, seen) ==> moved(held, seen) == held,
{
}

/// What a page that is seen does to where the tracker holds pages.
pub proof fn lemma_observed_spot(s: State, addr: u64, entry: UKSMPagemapEntry)
    requires
        s.info.wf(),
    ensures
        observed(s, addr, entry).info.find(addr) == moved(s.info.find(addr), Some(entry)),
        forall|a: u64|
            a != addr ==> #[trigger] observed(s, addr, entry).info.find(a) == s.info.find(a),
        calm(s.info.find(addr), Some(entry)) ==> observed(s, addr, entry) == s,
{
}

/// What a page that goes does to where the tracker holds pages.
pub proof fn lemma_dropped_spot(s: State, addr: u64)
    requires
        s.info.wf(),
    ensures
        dropped(s, addr).info.find(addr) is None,
        forall|a: u64| a != addr ==> #[trigger] dropped(s, addr).info.find(a) == s.info.find(a),
        s.info.find(addr) is None ==> dropped(s, addr) == s,
{
}

/// The address of the page with the index `j` of a sample that begins at
/// `at`.
pub open spec fn slot(at: int, j: int, size: u64) -> int {
    at + j * size
}

/// What a sample does to where the tracker holds pages: a page of the
/// sample moves as it is reported, and every other page stays.
pub proof fn lemma_sampled_spots(s: State, at: int, sample: Sample)
    requires
        sound(s),
        0 <= at,
        at + sample.len() * s.info.page_size <= u64::MAX + 1,
    ensures
        forall|j: int|
            0 <= j < sample.len() ==> sampled(s, at, sample).info.find(
                #[trigger] slot(at, j, s.info.page_size) as u64,
            ) == moved(s.info.find(slot(at, j, s.info.page_size) as u64), sample[j]),
        forall|a: u64|
            (forall|j: int| 0 <= j < sample.len() ==> a != #[trigger] slot(at, j, s.info.page_size))
                ==> #[trigger] sampled(s, at, sample).info.find(a) == s.info.find(a),
    decreases sample.len(),
{
    let size = s.info.page_size;
    if sample.len() > 0 {
        let rest = sample.skip(1);
        let next = match sample[0] {
            Some(entry) => observed(s, at as u64, entry),
            None => dropped(s, at as u64),
        };
        match sample[0] {
            Some(entry) => {
                lemma_observed_sound(s, at as u64, entry);
                lemma_observed_spot(s, at as u64, entry);
            },
            None => {
                lemma_dropped_sound(s, at as u64);
                lemma_dropped_spot(s, at as u64);
            },
        }
        assert(sample.len() * size == size + rest.len() * size) by (nonlinear_arith)
            requires
                rest.len() == sample.len() - 1,
        ;
        assert(rest.len() * size >= 0) by (nonlinear_arith)
            requires
                size > 0,
        ;
        lemma_sampled_spots(next, at + size, rest);
        let after = sampled(s, at, sample);
        assert(after == sampled(next, at + size, rest));
        assert(slot(at, 0, size) == at);
        assert forall|j: int| 0 <= j < sample.len() implies after.info.find(
            #[trigger] slot(at, j, size) as u64,
        ) == moved(s.info.find(slot(at, j, size) as u64), sample[j]) by {
            if j == 0 {
                assert forall|k: int| 0 <= k < rest.len() implies at != #[trigger] slot(
                    at + size,
                    k,
                    size,
                ) by {
                    lemma_slots_ordered(at, 0, k + 1, size as int);
                    assert(slot(at + size, k, size) == at + (k + 1) * size) by (nonlinear_arith)
                        requires
                            slot(at + size, k, size) == at + size + k * size,
                    ;
                }
                assert(after.info.find(at as u64) == next.info.find(at as u64));
            } else {
                assert(slot(at, j, size) == slot(at + size, j - 1, size)) by (nonlinear_arith)
                    requires
                        slot(at, j, size) == at + j * size,
                        slot(at + size, j - 1, size) == at + size + (j - 1) * size,
                ;
                lemma_slots_ordered(at, 0, j, size as int);
                lemma_slots_ordered(at, j, sample.len() as int, size as int);
                assert(rest[j - 1] == sample[j]);
                assert(slot(at, j, size) as u64 != at as u64);
            }
        }
        assert forall|a: u64|
            (forall|j: int| 0 <= j < sample.len() ==> a != #[trigger] slot(at, j, size)) implies #[trigger] after.info.find(
            a,
        ) == s.info.find(a) by {
            assert(a != slot(at, 0, size));
            assert forall|k: int| 0 <= k < rest.len() implies a != #[trigger] slot(
                at + size,
                k,
                size,
            ) by {
                assert(slot(at + size, k, size) == slot(at, k + 1, size)) by (nonlinear_arith)
                    requires
                        slot(at, k + 1, size) == at + (k + 1) * size,
                        slot(at + size, k, size) == at + size + k * size,
                ;
            }
            assert(after.info.find(a) == next.info.find(a));
        }
    }
}

/// A sample that reports every page as the tracker holds it changes
/// nothing.
pub proof fn lemma_sampled_calm(s: State, at: int, sample: Sample)
    requires
        sound(s),
        0 <= at,
        at + sample.len() * s.info.page_size <= u64::MAX + 1,
        forall|j: int|
            0 <= j < sample.len() ==> calm(
                s.info.find(#[trigger] slot(at, j, s.info.page_size) as u64),
                sample[j],
            ),
    ensures
        sampled(s, at, sample) == s,
    decreases sample.len(),
{
    let size = s.info.page_size;
    if sample.len() > 0 {
        let rest = sample.skip(1);
        assert(slot(at, 0, size) == at);
        assert(calm(s.info.find(slot(at, 0, size) as u64), sample[0]));
        match sample[0] {
            Some(entry) => {
                lemma_observed_spot(s, at as u64, entry);
            },
            None => {
                lemma_dropped_spot(s, at as u64);
            },
        }
        assert(sample.len() * size == size + rest.len() * size) by (nonlinear_arith)
            requires
                rest.len() == sample.len() - 1,
        ;
        assert(rest.len() * size >= 0) by (nonlinear_arith)
            requires
                size > 0,
        ;
        assert forall|k: int| 0 <= k < rest.len() implies calm(
            s.info.find(#[trigger] slot(at + size, k, size) as u64),
            rest[k],
        ) by {
            assert(slot(at + size, k, size) == slot(at, k + 1, size)) by (nonlinear_arith)
                requires
                    slot(at, k + 1, size) == at + (k + 1) * size,
                    slot(at + size, k, size) == at + size + k * size,
            ;
            assert(rest[k] == sample[k + 1]);
        }
        lemma_sampled_calm(s, at + size, rest);
    }
}

/// Whether `samples` report on the areas `maps`, one sample for each
/// area, and the areas begin and end at multiples of the page size and
/// share no page.
pub open spec fn surveyed(maps: Seq<MapRange>, samples: Seq<Sample>, size: u64) -> bool {
    &&& samples.len() == maps.len()
    &&& forall|i: int|
        0 <= i < maps.len() ==> (#[trigger] maps[i]).wf(size) && fits(maps[i], samples[i], size)
    &&& forall|i: int, k: int|
        0 <= i < maps.len() && 0 <= k < maps.len() && i != k ==> (#[trigger] maps[i]).end <= (
        #[trigger] maps[k]).start || maps[k].end <= maps[i].start
}

/// Every page that the tracker holds stands at a multiple of the page
/// size in one of the areas that the tracker has kept, and these areas
/// begin and end at multiples of the page size.
pub open spec fn tidy(s: State) -> bool {
    &&& forall|i: int|
        0 <= i < s.info.maps.len() ==> (#[trigger] s.info.maps[i]).wf(s.info.page_size)
    &&& forall|a: u64| #[trigger]
        s.info.find(a) is Some ==> a % s.info.page_size == 0 && exists|i: int|
            0 <= i < s.info.maps.len() && (#[trigger] s.info.maps[i]).contains(a)
}

/// Whether a sample reports on the page `a`.
pub open spec fn reported(maps: Seq<MapRange>, samples: Seq<Sample>, size: u64, n: int, a: u64) -> bool {
    exists|i: int, j: int|
        0 <= i < n && 0 <= j < samples[i].len() && a == #[trigger] slot(
            maps[i].start as int,
            j,
            size,
        )
}

/// The pages of a sample lie in the area of the sample, at multiples of
/// the page size; and every multiple of the page size in the area is a page
/// of the sample.
pub proof fn lemma_sample_pages(range: MapRange, sample: Sample, size: u64)
    requires
        range.wf(size),
        fits(range, sample, size),
    ensures
        range.start + sample.len() * size == range.end,
        forall|j: int|
            0 <= j < sample.len() ==> range.start <= #[trigger] slot(range.start as int, j, size)
                < range.end && slot(range.start as int, j, size) % (size as int) == 0,
        forall|a: u64|
            range.contains(a) && a % size == 0 ==> 0 <= (a - range.start) / (size as int)
                < sample.len() && a == slot(
                range.start as int,
                (a - range.start) / (size as int),
                size,
            ),
{
    lemma_pages_of(range, size);
    assert forall|j: int| 0 <= j < sample.len() implies range.start <= #[trigger] slot(
        range.start as int,
        j,
        size,
    ) < range.end && slot(range.start as int, j, size) % (size as int) == 0 by {
        lemma_slot(range.start as int, j, size as int);
        lemma_slots_ordered(range.start as int, j, sample.len() as int, size as int);
    }
    assert forall|a: u64| range.contains(a) && a % size == 0 implies 0 <= (a - range.start) / (
    size as int) < sample.len() && a == slot(
        range.start as int,
        (a - range.start) / (size as int),
        size,
    ) by {
        lemma_slot_of(a as int, range.start as int, size as int);
        let j = (a - range.start) / (size as int);
        if j >= sample.len() {
            assert(j * size >= sample.len() * size) by (nonlinear_arith)
                requires
                    j >= sample.len(),
                    size > 0,
            ;
        }
    }
}

/// Every area has its sample.
pub proof fn lemma_usable_all(maps: Seq<MapRange>, samples: Seq<Sample>, size: u64)
    requires
        samples.len() >= maps.len(),
        forall|i: int| 0 <= i < maps.len() ==> fits(#[trigger] maps[i], samples[i], size),
    ensures
        usable(maps, samples, size) == maps.len(),
    decreases maps.len(),
{
    if maps.len() > 0 {
        let front = maps.drop_last();
        assert forall|i: int| 0 <= i < front.len() implies fits(
            #[trigger] front[i],
            samples[i],
            size,
        ) by {
            assert(front[i] == maps[i]);
        }
        lemma_usable_all(front, samples, size);
        assert(fits(maps[maps.len() - 1], samples[maps.len() - 1], size));
    }
}

/// What samples do to where the tracker holds pages: a page that a
/// sample reports on moves as it is reported, and every other page stays.
pub proof fn lemma_sampled_ranges_spots(s: State, maps: Seq<MapRange>, samples: Seq<Sample>, n: nat)
    requires
        sound(s),
        surveyed(maps, samples, s.info.page_size),
        n <= maps.len(),
    ensures
        forall|i: int, j: int|
            0 <= i < n && 0 <= j < samples[i].len() ==> sampled_ranges(
                s,
                maps,
                samples,
                n,
            ).0.info.find(#[trigger] slot(maps[i].start as int, j, s.info.page_size) as u64)
                == moved(
                s.info.find(slot(maps[i].start as int, j, s.info.page_size) as u64),
                samples[i][j],
            ),
        forall|a: u64|
            !reported(maps, samples, s.info.page_size, n as int, a) ==> #[trigger] sampled_ranges(
                s,
                maps,
                samples,
                n,
            ).0.info.find(a) == s.info.find(a),
    decreases n,
{
    let size = s.info.page_size;
    if n > 0 {
        let m = (n - 1) as nat;
        let before = sampled_ranges(s, maps, samples, m).0;
        let after = sampled_ranges(s, maps, samples, n).0;
        let range = maps[n - 1];
        let sample = samples[n - 1];
        lemma_sampled_ranges_spots(s, maps, samples, m);
        lemma_sampled_ranges_sound(s, maps, samples, m);
        lemma_sample_pages(range, sample, size);
        assert(before.info.page_size == size);
        lemma_sampled_spots(before, range.start as int, sample);
        assert forall|i: int, j: int| 0 <= i < n && 0 <= j < samples[i].len() implies after.info.find(
            #[trigger] slot(maps[i].start as int, j, size) as u64,
        ) == moved(s.info.find(slot(maps[i].start as int, j, size) as u64), samples[i][j]) by {
            let a = slot(maps[i].start as int, j, size);
            lemma_sample_pages(maps[i], samples[i], size);
            if i == n - 1 {
                // No earlier sample reports on the page.
                if reported(maps, samples, size, m as int, a as u64) {
                    let (k, l) = choose|k: int, l: int|
                        0 <= k < m && 0 <= l < samples[k].len() && a as u64 == #[trigger] slot(
                            maps[k].start as int,
                            l,
                            size,
                        );
                    lemma_sample_pages(maps[k], samples[k], size);
                    assert(maps[k].end <= maps[i].start || maps[i].end <= maps[k].start);
                }
                assert(before.info.find(a as u64) == s.info.find(a as u64));
            } else {
                // The last sample does not report on the page.
                assert forall|l: int| 0 <= l < sample.len() implies a as u64 != #[trigger] slot(
                    range.start as int,
                    l,
                    size,
                ) by {
                    assert(maps[i].end <= maps[n - 1].start || maps[n - 1].end <= maps[i].start);
                }
                assert(after.info.find(a as u64) == before.info.find(a as u64));
            }
        }
        assert forall|a: u64| !reported(maps, samples, size, n as int, a) implies #[trigger] after.info.find(
            a,
        ) == s.info.find(a) by {
            assert(!reported(maps, samples, size, m as int, a)) by {
                if reported(maps, samples, size, m as int, a) {
                    let (k, l) = choose|k: int, l: int|
                        0 <= k < m && 0 <= l < samples[k].len() && a == #[trigger] slot(
                            maps[k].start as int,
                            l,
                            size,
                        );
                    assert(reported(maps, samples, size, n as int, a));
                }
            }
            assert forall|l: int| 0 <= l < sample.len() implies a != #[trigger] slot(
                range.start as int,
                l,
                size,
            ) by {
                if a == slot(range.start as int, l, size) {
                    assert(a == slot(maps[n - 1].start as int, l, size));
                    assert(reported(maps, samples, size, n as int, a));
                }
            }
            assert(after.info.find(a) == before.info.find(a));
        }
    }
}

/// Samples that report every page as the tracker holds it change
/// nothing.
pub proof fn lemma_sampled_ranges_calm(s: State, maps: Seq<MapRange>, samples: Seq<Sample>, n: nat)
    requires
        sound(s),
        surveyed(maps, samples, s.info.page_size),
        n <= maps.len(),
        forall|i: int, j: int|
            0 <= i < n && 0 <= j < samples[i].len() ==> calm(
                s.info.find(#[trigger] slot(maps[i].start as int, j, s.info.page_size) as u64),
                samples[i][j],
            ),
    ensures
        sampled_ranges(s, maps, samples, n).0 == s,
    decreases n,
{
    if n > 0 {
        lemma_sampled_ranges_calm(s, maps, samples, (n - 1) as nat);
        lemma_sample_pages(maps[n - 1], samples[n - 1], s.info.page_size);
        assert forall|j: int| 0 <= j < samples[n - 1].len() implies calm(
            s.info.find(#[trigger] slot(maps[n - 1].start as int, j, s.info.page_size) as u64),
            samples[n - 1][j],
        ) by {
        }
        lemma_sampled_calm(s, maps[n - 1].start as int, samples[n - 1]);
    }
}

/// Whether `range` is one of the first `n` of `ranges`.
pub open spec fn among(ranges: Seq<MapRange>, n: int, range: MapRange) -> bool {
    exists|i: int| 0 <= i < n && i < ranges.len() && #[trigger] ranges[i] == range
}

/// The areas that a refresh keeps are areas of the process, and which
/// they are depends on the samples alone.
pub proof fn lemma_kept(s: State, other: State, maps: Seq<MapRange>, samples: Seq<Sample>, n: nat)
    requires
        n <= maps.len(),
    ensures
        sampled_ranges(s, maps, samples, n).1 == sampled_ranges(other, maps, samples, n).1,
        forall|k: int|
            0 <= k < sampled_ranges(s, maps, samples, n).1.len() ==> among(
                maps,
                n as int,
                #[trigger] sampled_ranges(s, maps, samples, n).1[k],
            ),
        forall|i: int|
            0 <= i < n && any_present(samples[i]) ==> among(
                sampled_ranges(s, maps, samples, n).1,
                sampled_ranges(s, maps, samples, n).1.len() as int,
                #[trigger] maps[i],
            ),
    decreases n,
{
    if n > 0 {
        lemma_kept(s, other, maps, samples, (n - 1) as nat);
        let before = sampled_ranges(s, maps, samples, (n - 1) as nat).1;
        let after = sampled_ranges(s, maps, samples, n).1;
        assert forall|i: int| 0 <= i < n && any_present(samples[i]) implies among(
            after,
            after.len() as int,
            #[trigger] maps[i],
        ) by {
            if i < n - 1 {
                assert(among(before, before.len() as int, maps[i]));
                let k = choose|k: int|
                    0 <= k < before.len() && k < before.len() && #[trigger] before[k] == maps[i];
                assert(after[k] == maps[i]);
            } else {
                assert(after[after.len() - 1] == maps[i]);
            }
        }
        assert forall|k: int| 0 <= k < after.len() implies among(maps, n as int, #[trigger] after[k]) by {
            if k < before.len() {
                assert(among(maps, n - 1, before[k]));
                let i = choose|i: int| 0 <= i < n - 1 && i < maps.len() && #[trigger] maps[i] == before[k];
                assert(maps[i] == after[k]);
            } else {
                assert(maps[n - 1] == after[k]);
            }
        }
    }
}

/// Where the reach of an address comes from: it is the end of an
/// interval that holds the address, and no interval that holds the address
/// ends after it.
pub proof fn lemma_reach(at: u64, b: Seq<MapRange>)
    ensures
        reach(at, b) >= at,
        reach(at, b) > at ==> exists|i: int|
            0 <= i < b.len() && (#[trigger] b[i]).start <= at < b[i].end && b[i].end == reach(at, b),
        forall|i: int| 0 <= i < b.len() && (#[trigger] b[i]).start <= at < b[i].end ==> reach(at, b)
            >= b[i].end,
    decreases b.len(),
{
    if b.len() > 0 {
        let front = b.drop_last();
        lemma_reach(at, front);
        if reach(at, b) > at {
            if reach(at, b) == reach(at, front) {
                let i = choose|i: int|
                    0 <= i < front.len() && (#[trigger] front[i]).start <= at < front[i].end
                        && front[i].end == reach(at, front);
                assert(b[i] == front[i]);
            } else {
                assert(b[b.len() - 1].end == reach(at, b));
            }
        }
        assert forall|i: int| 0 <= i < b.len() && (#[trigger] b[i]).start <= at < b[i].end implies reach(
            at,
            b,
        ) >= b[i].end by {
            if i < front.len() {
                assert(front[i] == b[i]);
            }
        }
    }
}

/// Where an obstacle comes from: it is the end, or the start of an
/// interval; and no interval that is not empty begins between the address
/// and the obstacle.
pub proof fn lemma_obstacle_from(at: u64, end: u64, b: Seq<MapRange>)
    requires
        at < end,
    ensures
        at < obstacle(at, end, b) <= end,
        obstacle(at, end, b) < end ==> exists|i: int|
            0 <= i < b.len() && (#[trigger] b[i]).start == obstacle(at, end, b),
        forall|i: int|
            0 <= i < b.len() && (#[trigger] b[i]).start < b[i].end && at < b[i].start ==> obstacle(
                at,
                end,
                b,
            ) <= b[i].start,
    decreases b.len(),
{
    lemma_obstacle(at, end, b);
    if b.len() > 0 {
        let front = b.drop_last();
        lemma_obstacle_from(at, end, front);
        if obstacle(at, end, b) < end {
            if obstacle(at, end, b) == obstacle(at, end, front) {
                let i = choose|i: int|
                    0 <= i < front.len() && (#[trigger] front[i]).start == obstacle(at, end, front);
                assert(b[i] == front[i]);
            } else {
                assert(b[b.len() - 1].start == obstacle(at, end, b));
            }
        }
        assert forall|i: int|
            0 <= i < b.len() && (#[trigger] b[i]).start < b[i].end && at < b[i].start implies obstacle(
            at,
            end,
            b,
        ) <= b[i].start by {
            if i < front.len() {
                assert(front[i] == b[i]);
            }
        }
    }
}

/// Nothing is left of an interval when it is itself among the intervals
/// that are taken away.
pub proof fn lemma_gaps_none(at: u64, end: u64, b: Seq<MapRange>, i: int)
    requires
        0 <= i < b.len(),
        b[i].start <= at,
        end <= b[i].end,
    ensures
        gaps(at, end, b).len() == 0,
{
    if at < end {
        lemma_reach(at, b);
        assert(reach(at, b) >= b[i].end);
        assert(gaps(reach(at, b), end, b).len() == 0);
    }
}

/// Nothing is left of intervals that are all among the intervals that are
/// taken away.
pub proof fn lemma_subtract_none(a: Seq<MapRange>, b: Seq<MapRange>)
    requires
        forall|k: int| 0 <= k < a.len() ==> among(b, b.len() as int, #[trigger] a[k]),
    ensures
        subtract(a, b).len() == 0,
    decreases a.len(),
{
    if a.len() > 0 {
        let front = a.drop_last();
        assert forall|k: int| 0 <= k < front.len() implies among(
            b,
            b.len() as int,
            #[trigger] front[k],
        ) by {
            assert(front[k] == a[k]);
        }
        lemma_subtract_none(front, b);
        let last = a[a.len() - 1];
        assert(among(b, b.len() as int, last));
        let i = choose|i: int| 0 <= i < b.len() && i < b.len() && #[trigger] b[i] == last;
        lemma_gaps_none(last.start, last.end, b, i);
    }
}

/// What is left of an interval lies in the interval, holds no address
/// that one of the intervals taken away holds, and has no empty part.
pub proof fn lemma_gaps_apart(at: u64, end: u64, b: Seq<MapRange>)
    ensures
        forall|k: int|
            0 <= k < gaps(at, end, b).len() ==> at <= (#[trigger] gaps(at, end, b)[k]).start < gaps(
                at,
                end,
                b,
            )[k].end <= end,
        forall|k: int, i: int, x: u64|
            0 <= k < gaps(at, end, b).len() && 0 <= i < b.len() && #[trigger] gaps(
                at,
                end,
                b,
            )[k].contains(x) ==> !#[trigger] b[i].contains(x),
    decreases
            if at < end {
                end - at
            } else {
                0
            },
{
    let all = gaps(at, end, b);
    if at < end {
        lemma_reach(at, b);
        lemma_obstacle_from(at, end, b);
        if reach(at, b) > at {
            let rest = gaps(reach(at, b), end, b);
            lemma_gaps_apart(reach(at, b), end, b);
            assert(all == rest);
            assert forall|k: int| 0 <= k < all.len() implies at <= (#[trigger] all[k]).start
                < all[k].end <= end by {
                assert(reach(at, b) <= rest[k].start);
            }
        } else {
            let o = obstacle(at, end, b);
            let first = MapRange { start: at, end: o };
            let rest = gaps(o, end, b);
            lemma_gaps_apart(o, end, b);
            assert(all == seq![first] + rest);
            assert forall|k: int| 0 <= k < all.len() implies at <= (#[trigger] all[k]).start
                < all[k].end <= end by {
                if k > 0 {
                    assert(all[k] == rest[k - 1]);
                    assert(o <= rest[k - 1].start);
                } else {
                    assert(all[0] == first);
                }
            }
            assert forall|k: int, i: int, x: u64|
                0 <= k < all.len() && 0 <= i < b.len() && #[trigger] all[k].contains(
                    x,
                ) implies !#[trigger] b[i].contains(x) by {
                if k > 0 {
                    assert(all[k] == rest[k - 1]);
                    assert(rest[k - 1].contains(x));
                } else {
                    assert(all[0] == first);
                    if b[i].contains(x) {
                        if b[i].start <= at {
                            // The interval holds `at`, which nothing
                            // reaches beyond.
                            assert(reach(at, b) >= b[i].end);
                        } else {
                            // The interval is an obstacle at or before
                            // `x`.
                            assert(obstacle(at, end, b) <= b[i].start);
                        }
                    }
                }
            }
        }
    }
}

/// What is left of an interval holds every address of the interval that
/// none of the intervals taken away holds.
pub proof fn lemma_gaps_cover(at: u64, end: u64, b: Seq<MapRange>, x: u64)
    requires
        at <= x < end,
        forall|i: int| 0 <= i < b.len() ==> !(#[trigger] b[i]).contains(x),
    ensures
        exists|k: int| 0 <= k < gaps(at, end, b).len() && (#[trigger] gaps(at, end, b)[k]).contains(x),
    decreases end - at,
{
    lemma_reach(at, b);
    lemma_obstacle_from(at, end, b);
    let all = gaps(at, end, b);
    if reach(at, b) > at {
        let i = choose|i: int|
            0 <= i < b.len() && (#[trigger] b[i]).start <= at < b[i].end && b[i].end == reach(at, b);
        assert(!b[i].contains(x));
        lemma_gaps_cover(reach(at, b), end, b, x);
    } else {
        let o = obstacle(at, end, b);
        let first = MapRange { start: at, end: o };
        let rest = gaps(o, end, b);
        assert(all == seq![first] + rest);
        if x < o {
            assert(all[0] == first);
        } else {
            lemma_gaps_cover(o, end, b, x);
            let k = choose|k: int| 0 <= k < rest.len() && (#[trigger] rest[k]).contains(x);
            assert(all[k + 1] == rest[k]);
        }
    }
}

/// What is left of an interval begins, part by part, at multiples of the
/// page size if the interval and the intervals taken away do.
pub proof fn lemma_gaps_aligned(at: u64, end: u64, b: Seq<MapRange>, size: u64)
    requires
        size > 0,
        at % size == 0,
        forall|i: int| 0 <= i < b.len() ==> (#[trigger] b[i]).wf(size),
    ensures
        forall|k: int| 0 <= k < gaps(at, end, b).len() ==> (#[trigger] gaps(at, end, b)[k]).start % size == 0,
    decreases
            if at < end {
                end - at
            } else {
                0
            },
{
    let all = gaps(at, end, b);
    if at < end {
        lemma_reach(at, b);
        lemma_obstacle_from(at, end, b);
        if reach(at, b) > at {
            let i = choose|i: int|
                0 <= i < b.len() && (#[trigger] b[i]).start <= at < b[i].end && b[i].end == reach(
                    at,
                    b,
                );
            assert(b[i].wf(size));
            lemma_gaps_aligned(reach(at, b), end, b, size);
            assert(all == gaps(reach(at, b), end, b));
        } else {
            let o = obstacle(at, end, b);
            let first = MapRange { start: at, end: o };
            let rest = gaps(o, end, b);
            assert(all == seq![first] + rest);
            if o < end {
                let i = choose|i: int| 0 <= i < b.len() && (#[trigger] b[i]).start == o;
                assert(b[i].wf(size));
                lemma_gaps_aligned(o, end, b, size);
            } else {
                assert(rest.len() == 0);
            }
            assert forall|k: int| 0 <= k < all.len() implies (#[trigger] all[k]).start % size == 0 by {
                if k > 0 {
                    assert(all[k] == rest[k - 1]);
                } else {
                    assert(all[0] == first);
                }
            }
        }
    }
}

/// What is left of one of the intervals is part of what is left of them
/// all.
pub proof fn lemma_subtract_has(a: Seq<MapRange>, b: Seq<MapRange>, i: int, k: int)
    requires
        0 <= i < a.len(),
        0 <= k < gaps(a[i].start, a[i].end, b).len(),
    ensures
        exists|m: int|
            0 <= m < subtract(a, b).len() && #[trigger] subtract(a, b)[m] == gaps(
                a[i].start,
                a[i].end,
                b,
            )[k],
    decreases a.len(),
{
    let front = a.drop_last();
    let done = subtract(front, b);
    let last = gaps(a.last().start, a.last().end, b);
    assert(subtract(a, b) == done + last);
    if i == a.len() - 1 {
        assert(subtract(a, b)[done.len() + k] == last[k]);
    } else {
        assert(front[i] == a[i]);
        lemma_subtract_has(front, b, i, k);
        let m = choose|m: int|
            0 <= m < done.len() && #[trigger] done[m] == gaps(a[i].start, a[i].end, b)[k];
        assert(subtract(a, b)[m] == done[m]);
    }
}

/// Every part of what is left of the intervals is part of what is left
/// of one of them.
pub proof fn lemma_subtract_from(a: Seq<MapRange>, b: Seq<MapRange>, m: int)
    requires
        0 <= m < subtract(a, b).len(),
    ensures
        exists|i: int, k: int|
            0 <= i < a.len() && 0 <= k < gaps(a[i].start, a[i].end, b).len() && #[trigger] gaps(
                a[i].start,
                a[i].end,
                b,
            )[k] == subtract(a, b)[m],
    decreases a.len(),
{
    let front = a.drop_last();
    let done = subtract(front, b);
    let last = gaps(a.last().start, a.last().end, b);
    assert(subtract(a, b) == done + last);
    if m < done.len() {
        lemma_subtract_from(front, b, m);
        let (i, k) = choose|i: int, k: int|
            0 <= i < front.len() && 0 <= k < gaps(front[i].start, front[i].end, b).len()
                && #[trigger] gaps(front[i].start, front[i].end, b)[k] == done[m];
        assert(front[i] == a[i]);
        assert(gaps(a[i].start, a[i].end, b)[k] == subtract(a, b)[m]);
    } else {
        assert(gaps(a[a.len() - 1].start, a[a.len() - 1].end, b)[m - done.len()] == subtract(
            a,
            b,
        )[m]);
    }
}

/// Taking intervals away leaves the addresses that lie in one of the
/// intervals `a` and in none of the intervals `b`: an address lies in a
/// part of what is left if and only if it is such an address.
pub proof fn subtract_leaves_the_rest(a: Seq<MapRange>, b: Seq<MapRange>, x: u64)
    ensures
        (exists|m: int| 0 <= m < subtract(a, b).len() && (#[trigger] subtract(a, b)[m]).contains(x))
            <==> (exists|i: int| 0 <= i < a.len() && (#[trigger] a[i]).contains(x)) && (forall|j: int|
            0 <= j < b.len() ==> !(#[trigger] b[j]).contains(x)),
{
    let rest = subtract(a, b);
    if exists|m: int| 0 <= m < rest.len() && (#[trigger] rest[m]).contains(x) {
        let m = choose|m: int| 0 <= m < rest.len() && (#[trigger] rest[m]).contains(x);
        lemma_subtract_from(a, b, m);
        let (i, k) = choose|i: int, k: int|
            0 <= i < a.len() && 0 <= k < gaps(a[i].start, a[i].end, b).len() && #[trigger] gaps(
                a[i].start,
                a[i].end,
                b,
            )[k] == rest[m];
        lemma_gaps_apart(a[i].start, a[i].end, b);
        let parts = gaps(a[i].start, a[i].end, b);
        assert(parts[k].contains(x));
        assert(a[i].contains(x));
        assert forall|j: int| 0 <= j < b.len() implies !(#[trigger] b[j]).contains(x) by {
            assert(parts[k].contains(x) ==> !b[j].contains(x));
        }
    }
    if (exists|i: int| 0 <= i < a.len() && (#[trigger] a[i]).contains(x)) && (forall|j: int|
        0 <= j < b.len() ==> !(#[trigger] b[j]).contains(x)) {
        let i = choose|i: int| 0 <= i < a.len() && (#[trigger] a[i]).contains(x);
        lemma_gaps_cover(a[i].start, a[i].end, b, x);
        let parts = gaps(a[i].start, a[i].end, b);
        let k = choose|k: int| 0 <= k < parts.len() && (#[trigger] parts[k]).contains(x);
        lemma_subtract_has(a, b, i, k);
        let m = choose|m: int| 0 <= m < rest.len() && #[trigger] rest[m] == parts[k];
        assert(rest[m].contains(x));
    }
}

/// Pages that go: the tracker holds none of them afterwards, and holds
/// every other page as before.
pub proof fn lemma_dropped_pages_spots(s: State, at: u64, end: u64)
    requires
        sound(s),
    ensures
        forall|a: u64| #[trigger]
            dropped_pages(s, at, end).info.find(a) is Some ==> dropped_pages(s, at, end).info.find(a)
                == s.info.find(a),
        forall|a: u64|
            at <= a < end && at % s.info.page_size == 0 && a % s.info.page_size == 0
                ==> #[trigger] dropped_pages(s, at, end).info.find(a) is None,
    decreases
            if at < end {
                end - at
            } else {
                0
            },
{
    let size = s.info.page_size;
    if at < end {
        let next = dropped(s, at);
        lemma_dropped_spot(s, at);
        lemma_dropped_sound(s, at);
        if !(size == 0 || end - at <= size) {
            let then = (at + size) as u64;
            lemma_dropped_pages_spots(next, then, end);
            assert forall|a: u64|
                at <= a < end && at % size == 0 && a % size == 0 implies #[trigger] dropped_pages(
                s,
                at,
                end,
            ).info.find(a) is None by {
                if a != at {
                    lemma_aligned_apart(at as int, a as int, size as int);
                }
            }
        } else {
            assert forall|a: u64|
                at <= a < end && at % size == 0 && a % size == 0 implies #[trigger] dropped_pages(
                s,
                at,
                end,
            ).info.find(a) is None by {
                if a != at {
                    lemma_aligned_apart(at as int, a as int, size as int);
                }
            }
        }
    }
}

/// Areas that go: the tracker holds none of their pages afterwards, and
/// holds every other page as before.
pub proof fn lemma_dropped_ranges_spots(s: State, ranges: Seq<MapRange>)
    requires
        sound(s),
    ensures
        forall|a: u64| #[trigger]
            dropped_ranges(s, ranges).info.find(a) is Some ==> dropped_ranges(s, ranges).info.find(a)
                == s.info.find(a),
        forall|a: u64, k: int|
            0 <= k < ranges.len() && (#[trigger] ranges[k]).contains(a) && ranges[k].start
                % s.info.page_size == 0 && a % s.info.page_size == 0 ==> #[trigger] dropped_ranges(
                s,
                ranges,
            ).info.find(a) is None,
    decreases ranges.len(),
{
    if ranges.len() > 0 {
        let front = ranges.drop_last();
        let before = dropped_ranges(s, front);
        let last = ranges.last();
        lemma_dropped_ranges_spots(s, front);
        lemma_dropped_ranges_sound(s, front);
        lemma_dropped_pages_spots(before, last.start, last.end);
        let after = dropped_ranges(s, ranges);
        assert forall|a: u64, k: int|
            0 <= k < ranges.len() && (#[trigger] ranges[k]).contains(a) && ranges[k].start
                % s.info.page_size == 0 && a % s.info.page_size == 0 implies #[trigger] after.info.find(
            a,
        ) is None by {
            if k < front.len() {
                assert(front[k] == ranges[k]);
                assert(before.info.find(a) is None);
            }
        }
    }
}

/// Every page that the tracker holds is a page that a sample reports
/// on.
pub open spec fn within(s: State, maps: Seq<MapRange>, samples: Seq<Sample>) -> bool {
    forall|a: u64| #[trigger]
        s.info.find(a) is Some ==> reported(maps, samples, s.info.page_size, maps.len() as int, a)
}

/// The tracker and the index after the samples have been taken in, given
/// the tracker and the index `u` after the pages have gone that lie in no
/// area any more.
pub open spec fn taken_in(u: State, maps: Seq<MapRange>, samples: Seq<Sample>) -> State {
    let (after, kept) = sampled_ranges(u, maps, samples, maps.len());
    State { info: Tracker { maps: kept, ..after.info }, ..after }
}

/// A page at a multiple of the page size in one of the areas is a page
/// that a sample reports on.
pub proof fn lemma_reported(maps: Seq<MapRange>, samples: Seq<Sample>, size: u64, i: int, a: u64)
    requires
        surveyed(maps, samples, size),
        0 <= i < maps.len(),
        maps[i].contains(a),
        a % size == 0,
    ensures
        reported(maps, samples, size, maps.len() as int, a),
{
    lemma_sample_pages(maps[i], samples[i], size);
    let j = (a - maps[i].start) / (size as int);
    assert(a == slot(maps[i].start as int, j, size));
}

/// After the pages have gone that lie in no area any more, a tidy tracker
/// holds only pages that the samples report on.
pub proof fn lemma_gone_within(s: State, maps: Seq<MapRange>, samples: Seq<Sample>)
    requires
        sound(s),
        tidy(s),
        surveyed(maps, samples, s.info.page_size),
    ensures
        within(dropped_ranges(s, subtract(s.info.maps, maps)), maps, samples),
{
    let size = s.info.page_size;
    let lost = subtract(s.info.maps, maps);
    let u = dropped_ranges(s, lost);
    lemma_dropped_ranges_spots(s, lost);
    crate::page::lemma_dropped_ranges_frame(s, lost);
    assert forall|a: u64| #[trigger] u.info.find(a) is Some implies reported(
        maps,
        samples,
        size,
        maps.len() as int,
        a,
    ) by {
        assert(s.info.find(a) is Some);
        let k = choose|k: int| 0 <= k < s.info.maps.len() && (#[trigger] s.info.maps[k]).contains(a);
        let area = s.info.maps[k];
        assert(area.wf(size));
        if exists|i: int| 0 <= i < maps.len() && (#[trigger] maps[i]).contains(a) {
            let i = choose|i: int| 0 <= i < maps.len() && (#[trigger] maps[i]).contains(a);
            lemma_reported(maps, samples, size, i, a);
        } else {
            lemma_gaps_cover(area.start, area.end, maps, a);
            lemma_gaps_aligned(area.start, area.end, maps, size);
            let parts = gaps(area.start, area.end, maps);
            let g = choose|g: int| 0 <= g < parts.len() && (#[trigger] parts[g]).contains(a);
            lemma_subtract_has(s.info.maps, maps, k, g);
            let m = choose|m: int| 0 <= m < lost.len() && #[trigger] lost[m] == parts[g];
            assert(lost[m].contains(a));
            assert(u.info.find(a) is None);
        }
    }
}

/// What taking the samples in does to where the tracker holds pages.
pub proof fn lemma_taken_in(u: State, maps: Seq<MapRange>, samples: Seq<Sample>)
    requires
        sound(u),
        within(u, maps, samples),
        surveyed(maps, samples, u.info.page_size),
    ensures
        sound(taken_in(u, maps, samples)),
        within(taken_in(u, maps, samples), maps, samples),
        taken_in(u, maps, samples).info.page_size == u.info.page_size,
        forall|i: int, j: int|
            0 <= i < maps.len() && 0 <= j < samples[i].len() ==> taken_in(u, maps, samples).info.find(
                #[trigger] slot(maps[i].start as int, j, u.info.page_size) as u64,
            ) == moved(
                u.info.find(slot(maps[i].start as int, j, u.info.page_size) as u64),
                samples[i][j],
            ),
{
    let size = u.info.page_size;
    let n = maps.len();
    let after = sampled_ranges(u, maps, samples, n).0;
    let t = taken_in(u, maps, samples);
    lemma_sampled_ranges_spots(u, maps, samples, n);
    lemma_sampled_ranges_sound(u, maps, samples, n);
    assert forall|a: u64| t.info.find(a) == after.info.find(a) by {
    }
    assert forall|a: u64| #[trigger] t.info.find(a) is Some implies reported(
        maps,
        samples,
        size,
        n as int,
        a,
    ) by {
        if !reported(maps, samples, size, n as int, a) {
            assert(after.info.find(a) == u.info.find(a));
        }
    }
}

/// Refreshing a tracker twice over the same pages, reported in the same
/// way, settles it: after the second refresh no page is new, so that every
/// page is old or merged, and a further refresh changes nothing.
///
/// `s` is a tracker and the index in a state that the operations of this
/// crate lead to, with every page of the tracker in one of the areas that
/// the tracker has kept.  The areas `maps` begin and end at multiples of
/// the page size and share no page, and `samples` holds the sample of each
/// of them.
pub proof fn refresh_settles(s: State, maps: Seq<MapRange>, samples: Seq<Sample>)
    requires
        sound(s),
        tidy(s),
        surveyed(maps, samples, s.info.page_size),
    ensures
        ({
            let once = refreshed(s, maps, samples);
            let twice = refreshed(once, maps, samples);
            &&& twice.info.new_pages.dom() == Set::<u64>::empty()
            &&& refreshed(twice, maps, samples) == twice
        }),
{
    let size = s.info.page_size;
    let n = maps.len();
    lemma_usable_all(maps, samples, size);
    // The first refresh.
    let lost = subtract(s.info.maps, maps);
    let u = dropped_ranges(s, lost);
    lemma_dropped_ranges_sound(s, lost);
    crate::page::lemma_dropped_ranges_frame(s, lost);
    lemma_gone_within(s, maps, samples);
    let once = refreshed(s, maps, samples);
    assert(once == taken_in(u, maps, samples));
    lemma_taken_in(u, maps, samples);
    let kept = once.info.maps;
    lemma_kept(u, once, maps, samples, n);
    // The second refresh: no area has gone.
    assert forall|k: int| 0 <= k < kept.len() implies among(maps, maps.len() as int, #[trigger] kept[k]) by {
    }
    lemma_subtract_none(kept, maps);
    assert(subtract(once.info.maps, maps) =~= Seq::<MapRange>::empty());
    let twice = refreshed(once, maps, samples);
    assert(twice == taken_in(once, maps, samples));
    lemma_taken_in(once, maps, samples);
    lemma_kept(once, twice, maps, samples, n);
    assert(twice.info.maps == kept);
    // Every page that a sample reports on is calm after the second
    // refresh.
    assert forall|i: int, j: int| 0 <= i < n && 0 <= j < samples[i].len() implies calm(
        twice.info.find(#[trigger] slot(maps[i].start as int, j, size) as u64),
        samples[i][j],
    ) by {
        let a = slot(maps[i].start as int, j, size) as u64;
        lemma_moved_twice(u.info.find(a), samples[i][j]);
    }
    assert forall|a: u64| !twice.info.new_pages.dom().contains(a) by {
        if twice.info.new_pages.contains_key(a) {
            assert(twice.info.find(a) is Some);
            let (i, j) = choose|i: int, j: int|
                0 <= i < n && 0 <= j < samples[i].len() && a == #[trigger] slot(
                    maps[i].start as int,
                    j,
                    size,
                );
            assert(calm(twice.info.find(slot(maps[i].start as int, j, size) as u64), samples[i][j]));
        }
    }
    assert(twice.info.new_pages.dom() =~= Set::<u64>::empty());
    // The third refresh.
    assert(subtract(twice.info.maps, maps) =~= Seq::<MapRange>::empty());
    lemma_sampled_ranges_calm(twice, maps, samples, n);
    let thrice = refreshed(twice, maps, samples);
    assert(thrice.info =~= twice.info);
    assert(thrice == twice);
}

/// A refresh over areas that begin and end at multiples of the page
/// size and share no page leaves a tidy tracker tidy, so that a first
/// refresh of this kind makes every later one a refresh of a tidy tracker.
pub proof fn refresh_keeps_tidy(s: State, maps: Seq<MapRange>, samples: Seq<Sample>)
    requires
        sound(s),
        tidy(s),
        surveyed(maps, samples, s.info.page_size),
    ensures
        sound(refreshed(s, maps, samples)),
        tidy(refreshed(s, maps, samples)),
{
    let size = s.info.page_size;
    let n = maps.len();
    lemma_usable_all(maps, samples, size);
    let lost = subtract(s.info.maps, maps);
    let u = dropped_ranges(s, lost);
    lemma_dropped_ranges_sound(s, lost);
    crate::page::lemma_dropped_ranges_frame(s, lost);
    lemma_gone_within(s, maps, samples);
    let once = refreshed(s, maps, samples);
    assert(once == taken_in(u, maps, samples));
    lemma_taken_in(u, maps, samples);
    lemma_kept(u, u, maps, samples, n);
    let kept = once.info.maps;
    assert forall|k: int| 0 <= k < kept.len() implies (#[trigger] kept[k]).wf(size) by {
        assert(among(maps, n as int, kept[k]));
        let i = choose|i: int| 0 <= i < n && i < maps.len() && #[trigger] maps[i] == kept[k];
        assert(maps[i].wf(size));
    }
    assert forall|a: u64| #[trigger] once.info.find(a) is Some implies a % size == 0 && exists|k: int|
        0 <= k < kept.len() && (#[trigger] kept[k]).contains(a) by {
        let (i, j) = choose|i: int, j: int|
            0 <= i < n && 0 <= j < samples[i].len() && a == #[trigger] slot(
                maps[i].start as int,
                j,
                size,
            );
        lemma_sample_pages(maps[i], samples[i], size);
        assert(once.info.find(slot(maps[i].start as int, j, size) as u64) == moved(
            u.info.find(slot(maps[i].start as int, j, size) as u64),
            samples[i][j],
        ));
        assert(samples[i][j] is Some);
        assert(any_present(samples[i]));
        assert(among(kept, kept.len() as int, maps[i]));
        let k = choose|k: int| 0 <= k < kept.len() && k < kept.len() && #[trigger] kept[k] == maps[i];
        assert(kept[k].contains(a));
    }
}

} // verus!
