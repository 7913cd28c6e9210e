//! What every step of a job keeps true of the trackers and the merge
//! index.

use crate::index_lemmas::distinct;
use crate::page::{merged_on, refreshed, unmerged_on, State};
use crate::task::{
    empty_tracker, handled, merging, refreshing, sampling, state_of, unmerging, with_state,
    JobView, Pages, Reply,
};
use crate::tracker_lemmas::{
    agrees, evolves, exact, lemma_merged_on_sound, lemma_refreshed_sound,
    lemma_unmerged_on_sound,
};
use crate::uksm::{holds, Index, PidAddr};
use vstd::prelude::*;

verus! {

/// The index holds no page twice under a fingerprint, and every page that
/// it holds is a merged page of the tracker of its process, remembered with
/// the fingerprint that the index holds it under.
pub open spec fn consistent(p: Pages) -> bool {
    &&& distinct(p.uksm)
    &&& forall|page: PidAddr, crc: u32| #[trigger]
        holds(p.uksm, page, crc) ==> {
            &&& p.trackers.contains_key(page.pid)
            &&& p.trackers[page.pid].uksm_pages.contains_key(page.addr)
            &&& p.trackers[page.pid].uksm_pages[page.addr].crc == crc
        }
}

/// The index holds no page of the process.
pub open spec fn unlisted(index: Index, pid: u64) -> bool {
    forall|page: PidAddr, crc: u32| #[trigger] holds(index, page, crc) ==> page.pid != pid
}

/// Work on one tracker that leads from the state of that tracker to
/// another keeps the whole well formed, and consistent if it was.
pub proof fn lemma_with_state(p: Pages, pid: u64, s: State)
    requires
        p.wf(),
        p.trackers.contains_key(pid),
        evolves(state_of(p, pid), s),
    ensures
        with_state(p, pid, s).wf(),
        consistent(p) ==> consistent(with_state(p, pid, s)),
        consistent(p) ==> forall|other: u64|
            other != pid && #[trigger] unlisted(p.uksm, other) ==> unlisted(s.uksm, other),
        with_state(p, pid, s).trackers.dom() == p.trackers.dom(),
{
    let before = state_of(p, pid);
    assert(with_state(p, pid, s).trackers.dom() =~= p.trackers.dom());
    let after = with_state(p, pid, s);
    assert forall|other: u64| #[trigger] after.trackers.contains_key(other) implies {
        &&& after.trackers[other].wf()
        &&& after.trackers[other].pid == other
        &&& after.trackers[other].page_size == after.page_size
    } by {
        if other != pid {
            assert(p.trackers.contains_key(other));
        }
    }
    if consistent(p) {
        assert(agrees(before)) by {
            assert forall|addr: u64, crc: u32| #[trigger]
                holds(before.uksm, PidAddr { pid: before.info.pid, addr }, crc) implies before.info.uksm_pages.contains_key(
                addr,
            ) && before.info.uksm_pages[addr].crc == crc by {
                assert(holds(p.uksm, PidAddr { pid, addr }, crc));
            }
        }
        assert(exact(before));
        assert forall|other: u64| other != pid && #[trigger] unlisted(p.uksm, other) implies unlisted(
            s.uksm,
            other,
        ) by {
            assert forall|page: PidAddr, crc: u32| #[trigger] holds(s.uksm, page, crc) implies page.pid
                != other by {
                if page.pid == other {
                    assert(holds(p.uksm, page, crc));
                }
            }
        }
        assert forall|page: PidAddr, crc: u32| #[trigger] holds(after.uksm, page, crc) implies {
            &&& after.trackers.contains_key(page.pid)
            &&& after.trackers[page.pid].uksm_pages.contains_key(page.addr)
            &&& after.trackers[page.pid].uksm_pages[page.addr].crc == crc
        } by {
            if page.pid == pid {
                assert(holds(s.uksm, PidAddr { pid: s.info.pid, addr: page.addr }, crc));
            } else {
                assert(holds(p.uksm, page, crc));
            }
        }
    }
}

/// A step of a pass keeps the whole well formed, and consistent if it
/// was.
pub proof fn lemma_merging(p: Pages, pid: u64, todo: Seq<u64>, verdicts: Seq<bool>)
    requires
        p.wf(),
    ensures
        merging(p, pid, todo, verdicts).0.wf(),
        consistent(p) ==> consistent(merging(p, pid, todo, verdicts).0),
{
    if p.trackers.contains_key(pid) {
        lemma_merged_on_sound(state_of(p, pid), todo, verdicts);
        lemma_with_state(p, pid, merged_on(state_of(p, pid), todo, verdicts).state);
    }
}

/// A step of a pass keeps the whole well formed, and consistent if it
/// was.
pub proof fn lemma_unmerging(p: Pages, pid: u64, todo: Seq<u64>, released: bool)
    requires
        p.wf(),
    ensures
        unmerging(p, pid, todo, released).0.wf(),
        consistent(p) ==> consistent(unmerging(p, pid, todo, released).0),
{
    if p.trackers.contains_key(pid) {
        lemma_unmerged_on_sound(state_of(p, pid), todo, released);
        lemma_with_state(p, pid, unmerged_on(state_of(p, pid), todo, released).state);
    }
}

/// The end of a refresh keeps the whole well formed, and consistent if it
/// was.
pub proof fn lemma_refreshing(
    p: Pages,
    task: crate::task::TaskInfo,
    maps: Seq<crate::proc::MapRange>,
    samples: Seq<crate::page::Sample>,
)
    requires
        p.wf(),
    ensures
        refreshing(p, task, maps, samples).0.wf(),
        consistent(p) ==> consistent(refreshing(p, task, maps, samples).0),
        sampling(p, task, maps, samples).0.wf(),
        consistent(p) ==> consistent(sampling(p, task, maps, samples).0),
{
    if p.trackers.contains_key(task.pid) {
        lemma_refreshed_sound(state_of(p, task.pid), maps, samples);
        lemma_with_state(p, task.pid, refreshed(state_of(p, task.pid), maps, samples));
    }
}

/// Whatever the kernel returns, a step of a job leaves the trackers and
/// the index well formed: in each tracker no page is in two buckets, and
/// in the index no class is empty and no fingerprint is without a class.
pub proof fn handled_keeps_well_formed(p: Pages, job: JobView, reply: Reply)
    requires
        p.wf(),
    ensures
        handled(p, job, reply).0.wf(),
{
    lemma_handled(p, job, reply);
}

/// Whatever the kernel returns, a step of a job leaves every page of the
/// index a merged page of the tracker of its process, remembered with the
/// fingerprint that the index holds it under.
///
/// A job that drops a tracker is left out where the index still holds a
/// page of the process: the worker unmerges a process before it drops its
/// tracker.
pub proof fn handled_keeps_consistent(p: Pages, job: JobView, reply: Reply)
    requires
        p.wf(),
        consistent(p),
        job matches JobView::Del(pid) ==> unlisted(p.uksm, pid),
    ensures
        consistent(handled(p, job, reply).0),
{
    lemma_handled(p, job, reply);
}

/// A step of a job keeps the whole well formed, and consistent if it
/// was, unless it drops a tracker of which the index holds a page.
pub proof fn lemma_handled(p: Pages, job: JobView, reply: Reply)
    requires
        p.wf(),
    ensures
        handled(p, job, reply).0.wf(),
        consistent(p) && (job matches JobView::Del(pid) ==> unlisted(p.uksm, pid)) ==> consistent(
            handled(p, job, reply).0,
        ),
{
    let after = handled(p, job, reply).0;
    match (job, reply) {
        (JobView::Del(pid), Reply::Start) => {
            assert forall|other: u64| #[trigger] after.trackers.contains_key(other) implies {
                &&& after.trackers[other].wf()
                &&& after.trackers[other].pid == other
                &&& after.trackers[other].page_size == after.page_size
            } by {
                assert(p.trackers.contains_key(other));
            }
            if consistent(p) && unlisted(p.uksm, pid) {
                assert forall|page: PidAddr, crc: u32| #[trigger]
                    holds(after.uksm, page, crc) implies {
                    &&& after.trackers.contains_key(page.pid)
                    &&& after.trackers[page.pid].uksm_pages.contains_key(page.addr)
                    &&& after.trackers[page.pid].uksm_pages[page.addr].crc == crc
                } by {
                    assert(holds(p.uksm, page, crc));
                }
            }
        },
        (JobView::Refresh(task), Reply::Start) => {
            assert forall|other: u64| #[trigger] after.trackers.contains_key(other) implies {
                &&& after.trackers[other].wf()
                &&& after.trackers[other].pid == other
                &&& after.trackers[other].page_size == after.page_size
            } by {
                if p.trackers.contains_key(other) {
                } else {
                    assert(other == task.pid);
                    assert(after.trackers[other] == empty_tracker(task.pid, p.page_size));
                }
            }
            if consistent(p) {
                assert forall|page: PidAddr, crc: u32| #[trigger]
                    holds(after.uksm, page, crc) implies {
                    &&& after.trackers.contains_key(page.pid)
                    &&& after.trackers[page.pid].uksm_pages.contains_key(page.addr)
                    &&& after.trackers[page.pid].uksm_pages[page.addr].crc == crc
                } by {
                    assert(holds(p.uksm, page, crc));
                }
            }
        },
        (JobView::Summary(task), Reply::Smaps(Some(text))) => {
            match crate::proc::smaps_ranges(text@, task.addr) {
                Some(maps) => lemma_refreshing(p, task, maps, Seq::empty()),
                None => {},
            }
        },
        (JobView::Sampling { task, maps, samples }, Reply::Pagemap(Some(entries))) => {
            lemma_refreshing(p, task, maps, samples.push(entries@));
        },
        (JobView::Sampling { task, maps, samples }, Reply::Pagemap(None)) => {
            lemma_refreshing(p, task, maps, samples);
        },
        (JobView::Merge { pid, todo, verdicts }, Reply::Start) => {
            lemma_merging(p, pid, todo, verdicts);
        },
        (JobView::Merge { pid, todo, verdicts }, Reply::Merged(Ok(answer))) => {
            lemma_merging(p, pid, todo, verdicts.push(answer));
        },
        (JobView::UnMerge { pid, todo }, Reply::Start) => {
            lemma_unmerging(p, pid, todo, false);
        },
        (JobView::UnMerge { pid, todo }, Reply::Unmerged(Ok(()))) => {
            lemma_unmerging(p, pid, todo, true);
        },
        _ => {},
    }
}

} // verus!
