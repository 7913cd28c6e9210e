//! What the operations on a tracker keep true of the tracker and the
//! merge index.

use crate::index_lemmas::{distinct, lemma_added, lemma_removed};
use crate::page::{
    demoted, dropped, dropped_pages, dropped_ranges, merged_on, observed, promoted, refreshed,
    sampled, sampled_ranges, subtract, unmerged_on, usable, Sample, State,
};
use crate::proc::MapRange;
use crate::uksm::{added, holds, no_empty, removed, Index, PidAddr, UKSMPagemapEntry};
use vstd::prelude::*;

verus! {

/// Every page of the process of the tracker that the index holds is a
/// merged page of the tracker, remembered with the fingerprint that the
/// index holds it under.
pub open spec fn agrees(s: State) -> bool {
    forall|addr: u64, crc: u32| #[trigger]
        holds(s.uksm, PidAddr { pid: s.info.pid, addr }, crc) ==> s.info.uksm_pages.contains_key(
            addr,
        ) && s.info.uksm_pages[addr].crc == crc
}

/// The tracker is well formed, and the index has no empty class and no
/// fingerprint without a class.
pub open spec fn sound(s: State) -> bool {
    &&& s.info.wf()
    &&& no_empty(s.uksm)
}

/// The index holds no page twice under a fingerprint, and it agrees with
/// the tracker.
pub open spec fn exact(s: State) -> bool {
    &&& distinct(s.uksm)
    &&& agrees(s)
}

/// Whether `after` holds the pages of the other processes as `before`
/// does.
pub open spec fn others_kept(before: Index, after: Index, pid: u64) -> bool {
    forall|q: PidAddr, c: u32|
        #![trigger holds(after, q, c)]
        #![trigger holds(before, q, c)]
        q.pid != pid ==> (holds(after, q, c) <==> holds(before, q, c))
}

/// Whether `after` is a state that work on the tracker of `before` can
/// lead to: it is sound and of the same process with the same page size;
/// and if `before` is exact, then `after` is exact too and its index holds
/// the pages of the other processes as before.
pub open spec fn evolves(before: State, after: State) -> bool {
    &&& sound(after)
    &&& after.info.pid == before.info.pid
    &&& after.info.page_size == before.info.page_size
    &&& exact(before) ==> exact(after) && others_kept(before.uksm, after.uksm, before.info.pid)
}

/// What two steps lead to, one after the other, one step can be said to
/// lead to.
pub proof fn lemma_evolves_twice(a: State, b: State, c: State)
    requires
        evolves(a, b),
        evolves(b, c),
    ensures
        evolves(a, c),
{
    if exact(a) {
        assert forall|q: PidAddr, crc: u32| q.pid != a.info.pid implies (#[trigger] holds(
            c.uksm,
            q,
            crc,
        ) <==> holds(a.uksm, q, crc)) by {
            assert(holds(c.uksm, q, crc) <==> holds(b.uksm, q, crc));
            assert(holds(b.uksm, q, crc) <==> holds(a.uksm, q, crc));
        }
    }
}

/// A page that goes leaves a sound state sound.
pub proof fn lemma_dropped_sound(s: State, addr: u64)
    requires
        sound(s),
    ensures
        evolves(s, dropped(s, addr)),
{
    let t = s.info;
    let after = dropped(s, addr);
    if !t.new_pages.contains_key(addr) && !t.old_pages.contains_key(addr)
        && t.uksm_pages.contains_key(addr) {
        let page = PidAddr { pid: t.pid, addr };
        lemma_removed(s.uksm, page, t.uksm_pages[addr].crc);
        if exact(s) {
            assert forall|a: u64, crc: u32| #[trigger]
                holds(after.uksm, PidAddr { pid: after.info.pid, addr: a }, crc) implies after.info.uksm_pages.contains_key(
                a,
            ) && after.info.uksm_pages[a].crc == crc by {
                assert(holds(s.uksm, PidAddr { pid: t.pid, addr: a }, crc));
            }
        }
    } else {
        if exact(s) {
            assert forall|a: u64, crc: u32| #[trigger]
                holds(after.uksm, PidAddr { pid: after.info.pid, addr: a }, crc) implies after.info.uksm_pages.contains_key(
                a,
            ) && after.info.uksm_pages[a].crc == crc by {
                assert(holds(s.uksm, PidAddr { pid: t.pid, addr: a }, crc));
            }
        }
    }
}

/// A page that is seen leaves a sound state sound.
pub proof fn lemma_observed_sound(s: State, addr: u64, entry: UKSMPagemapEntry)
    requires
        sound(s),
    ensures
        evolves(s, observed(s, addr, entry)),
{
    let t = s.info;
    let after = observed(s, addr, entry);
    if !t.new_pages.contains_key(addr) && !t.old_pages.contains_key(addr)
        && t.uksm_pages.contains_key(addr) && (!entry.is_ksm || t.uksm_pages[addr].crc
        != entry.crc) {
        let page = PidAddr { pid: t.pid, addr };
        lemma_removed(s.uksm, page, t.uksm_pages[addr].crc);
    }
    if exact(s) {
        assert forall|a: u64, crc: u32| #[trigger]
            holds(after.uksm, PidAddr { pid: after.info.pid, addr: a }, crc) implies after.info.uksm_pages.contains_key(
            a,
        ) && after.info.uksm_pages[a].crc == crc by {
            assert(holds(s.uksm, PidAddr { pid: t.pid, addr: a }, crc));
        }
    }
}

/// Pages that go leave a sound state sound.
pub proof fn lemma_dropped_pages_sound(s: State, at: u64, end: u64)
    requires
        sound(s),
    ensures
        evolves(s, dropped_pages(s, at, end)),
    decreases
            if at < end {
                end - at
            } else {
                0
            },
{
    if at < end {
        lemma_dropped_sound(s, at);
        if !(s.info.page_size == 0 || end - at <= s.info.page_size) {
            let next = dropped(s, at);
            lemma_dropped_pages_sound(next, (at + s.info.page_size) as u64, end);
            lemma_evolves_twice(s, next, dropped_pages(s, at, end));
        }
    }
}

/// Pages that go leave a sound state sound.
pub proof fn lemma_dropped_ranges_sound(s: State, ranges: Seq<MapRange>)
    requires
        sound(s),
    ensures
        evolves(s, dropped_ranges(s, ranges)),
    decreases ranges.len(),
{
    if ranges.len() > 0 {
        let before = dropped_ranges(s, ranges.drop_last());
        lemma_dropped_ranges_sound(s, ranges.drop_last());
        lemma_dropped_pages_sound(before, ranges.last().start, ranges.last().end);
        lemma_evolves_twice(s, before, dropped_ranges(s, ranges));
    }
}

/// A sample leaves a sound state sound.
pub proof fn lemma_sampled_sound(s: State, at: int, sample: Sample)
    requires
        sound(s),
    ensures
        evolves(s, sampled(s, at, sample)),
    decreases sample.len(),
{
    if sample.len() > 0 {
        let next = match sample[0] {
            Some(entry) => observed(s, at as u64, entry),
            None => dropped(s, at as u64),
        };
        match sample[0] {
            Some(entry) => lemma_observed_sound(s, at as u64, entry),
            None => lemma_dropped_sound(s, at as u64),
        }
        lemma_sampled_sound(next, at + s.info.page_size, sample.skip(1));
        lemma_evolves_twice(s, next, sampled(s, at, sample));
    }
}

/// Samples leave a sound state sound.
pub proof fn lemma_sampled_ranges_sound(s: State, maps: Seq<MapRange>, samples: Seq<Sample>, n: nat)
    requires
        sound(s),
    ensures
        evolves(s, sampled_ranges(s, maps, samples, n).0),
    decreases n,
{
    if n > 0 {
        let before = sampled_ranges(s, maps, samples, (n - 1) as nat).0;
        lemma_sampled_ranges_sound(s, maps, samples, (n - 1) as nat);
        lemma_sampled_sound(before, maps[n - 1].start as int, samples[n - 1]);
        lemma_evolves_twice(s, before, sampled_ranges(s, maps, samples, n).0);
    }
}

/// A refresh leaves a sound state sound.
pub proof fn lemma_refreshed_sound(s: State, maps: Seq<MapRange>, samples: Seq<Sample>)
    requires
        sound(s),
    ensures
        evolves(s, refreshed(s, maps, samples)),
{
    let gone = dropped_ranges(s, subtract(s.info.maps, maps));
    lemma_dropped_ranges_sound(s, subtract(s.info.maps, maps));
    let n = usable(maps, samples, s.info.page_size);
    let after = sampled_ranges(gone, maps, samples, n).0;
    lemma_sampled_ranges_sound(gone, maps, samples, n);
    lemma_evolves_twice(s, gone, after);
    let last = refreshed(s, maps, samples);
    assert(last.uksm == after.uksm);
    if exact(s) {
        assert forall|a: u64, crc: u32| #[trigger]
            holds(last.uksm, PidAddr { pid: last.info.pid, addr: a }, crc) implies last.info.uksm_pages.contains_key(
            a,
        ) && last.info.uksm_pages[a].crc == crc by {
            assert(holds(after.uksm, PidAddr { pid: after.info.pid, addr: a }, crc));
        }
    }
}

/// An old page that the index has taken in and that has become merged
/// leaves a sound state sound.
pub proof fn lemma_promoted_sound(s: State, addr: u64, verdicts: Seq<bool>)
    requires
        sound(s),
        s.info.old_pages.contains_key(addr),
        added(
            s.uksm,
            PidAddr { pid: s.info.pid, addr },
            s.info.old_pages[addr].crc,
            verdicts,
        ).1 is None,
    ensures
        evolves(
            s,
            State {
                info: promoted(s.info, addr),
                uksm: added(
                    s.uksm,
                    PidAddr { pid: s.info.pid, addr },
                    s.info.old_pages[addr].crc,
                    verdicts,
                ).0,
            },
        ),
{
    let t = s.info;
    let page = PidAddr { pid: t.pid, addr };
    let crc = t.old_pages[addr].crc;
    let after = State { info: promoted(t, addr), uksm: added(s.uksm, page, crc, verdicts).0 };
    lemma_added(s.uksm, page, crc, verdicts);
    if exact(s) {
        assert(!holds(s.uksm, page, crc)) by {
            if holds(s.uksm, page, crc) {
                assert(holds(s.uksm, PidAddr { pid: s.info.pid, addr }, crc));
                assert(t.uksm_pages.contains_key(addr));
            }
        }
    }
    if exact(s) {
        assert forall|a: u64, c: u32| #[trigger]
            holds(after.uksm, PidAddr { pid: after.info.pid, addr: a }, c) implies after.info.uksm_pages.contains_key(
            a,
        ) && after.info.uksm_pages[a].crc == c by {
            if !(a == addr && c == crc) {
                assert(holds(s.uksm, PidAddr { pid: t.pid, addr: a }, c));
            }
        }
    }
}

/// A pass that merges leaves a sound state sound.
pub proof fn lemma_merged_on_sound(s: State, todo: Seq<u64>, verdicts: Seq<bool>)
    requires
        sound(s),
    ensures
        evolves(s, merged_on(s, todo, verdicts).state),
    decreases todo.len(),
{
    if todo.len() > 0 {
        let addr = todo.last();
        if !s.info.old_pages.contains_key(addr) {
            lemma_merged_on_sound(s, todo.drop_last(), Seq::empty());
        } else {
            let page = PidAddr { pid: s.info.pid, addr };
            let (index, ask) = added(s.uksm, page, s.info.old_pages[addr].crc, verdicts);
            if ask is None {
                let next = State { info: promoted(s.info, addr), uksm: index };
                lemma_promoted_sound(s, addr, verdicts);
                lemma_merged_on_sound(next, todo.drop_last(), Seq::empty());
                lemma_evolves_twice(s, next, merged_on(s, todo, verdicts).state);
            }
        }
    }
}

/// A merged page that has left the index and has become old leaves a sound
/// state sound.
pub proof fn lemma_demoted_sound(s: State, addr: u64)
    requires
        sound(s),
        s.info.uksm_pages.contains_key(addr),
    ensures
        evolves(
            s,
            State {
                info: demoted(s.info, addr),
                uksm: removed(
                    s.uksm,
                    PidAddr { pid: s.info.pid, addr },
                    s.info.uksm_pages[addr].crc,
                ),
            },
        ),
{
    let t = s.info;
    let page = PidAddr { pid: t.pid, addr };
    let crc = t.uksm_pages[addr].crc;
    let after = State { info: demoted(t, addr), uksm: removed(s.uksm, page, crc) };
    lemma_removed(s.uksm, page, crc);
    if exact(s) {
        assert forall|a: u64, c: u32| #[trigger]
            holds(after.uksm, PidAddr { pid: after.info.pid, addr: a }, c) implies after.info.uksm_pages.contains_key(
            a,
        ) && after.info.uksm_pages[a].crc == c by {
            assert(holds(s.uksm, PidAddr { pid: t.pid, addr: a }, c));
        }
    }
}

/// A pass that unmerges leaves a sound state sound.
pub proof fn lemma_unmerged_on_sound(s: State, todo: Seq<u64>, released: bool)
    requires
        sound(s),
    ensures
        evolves(s, unmerged_on(s, todo, released).state),
    decreases todo.len(),
{
    if todo.len() > 0 {
        let addr = todo.last();
        if !s.info.uksm_pages.contains_key(addr) {
            lemma_unmerged_on_sound(s, todo.drop_last(), false);
        } else if released {
            let page = PidAddr { pid: s.info.pid, addr };
            let next = State {
                info: demoted(s.info, addr),
                uksm: removed(s.uksm, page, s.info.uksm_pages[addr].crc),
            };
            lemma_demoted_sound(s, addr);
            lemma_unmerged_on_sound(next, todo.drop_last(), false);
            lemma_evolves_twice(s, next, unmerged_on(s, todo, released).state);
        }
    }
}


} // verus!
