//! Merging the pages of a process and unmerging them again.

use crate::index_lemmas::{
    lemma_added_foreign, lemma_removed_foreign, lemma_unlisted_foreign, without_process,
};
use crate::page::{demoted, merged_on, promoted, unmerged_on, PageEntry, State, Step, Tracker};
use crate::tracker_lemmas::{
    evolves, exact, lemma_demoted_sound, lemma_evolves_twice,
    lemma_merged_on_sound, lemma_promoted_sound, lemma_unmerged_on_sound, sound,
};
use crate::uksm::{added, holds, removed, PidAddr};
use vstd::prelude::*;

verus! {

/// The pages of a tracker that are old or merged, with the fingerprints
/// they are remembered with.
pub open spec fn settled(t: Tracker) -> Map<u64, PageEntry> {
    t.old_pages.union_prefer_right(t.uksm_pages)
}

/// What a pass leaves as it is: the new pages and the memory areas of the
/// tracker, the pages that are old or merged taken together, and the index
/// but for the pages of the process.
pub open spec fn pass_kept(before: State, after: State) -> bool {
    &&& after.info.pid == before.info.pid
    &&& after.info.new_pages == before.info.new_pages
    &&& after.info.maps == before.info.maps
    &&& settled(after.info) == settled(before.info)
    &&& without_process(after.uksm, before.info.pid) == without_process(
        before.uksm,
        before.info.pid,
    )
}

/// A step of a pass that merges leaves what a pass leaves.
pub proof fn lemma_merged_on_kept(s: State, todo: Seq<u64>, verdicts: Seq<bool>)
    requires
        sound(s),
    ensures
        pass_kept(s, merged_on(s, todo, verdicts).state),
    decreases todo.len(),
{
    if todo.len() > 0 {
        let addr = todo.last();
        if !s.info.old_pages.contains_key(addr) {
            lemma_merged_on_kept(s, todo.drop_last(), Seq::empty());
        } else {
            let page = PidAddr { pid: s.info.pid, addr };
            let crc = s.info.old_pages[addr].crc;
            let (index, ask) = added(s.uksm, page, crc, verdicts);
            if ask is None {
                let next = State { info: promoted(s.info, addr), uksm: index };
                lemma_promoted_sound(s, addr, verdicts);
                lemma_added_foreign(s.uksm, page, crc, verdicts);
                assert(settled(next.info) =~= settled(s.info));
                lemma_merged_on_kept(next, todo.drop_last(), Seq::empty());
            }
        }
    }
}

/// A step of a pass that unmerges leaves what a pass leaves.  If the
/// pass had all merged pages still to take, it has so after the step; and
/// a pass that asks for nothing more has no page left to take.
pub proof fn lemma_unmerged_on_kept(s: State, todo: Seq<u64>, released: bool)
    requires
        sound(s),
    ensures
        pass_kept(s, unmerged_on(s, todo, released).state),
        s.info.uksm_pages.dom().subset_of(todo.to_set()) ==> unmerged_on(
            s,
            todo,
            released,
        ).state.info.uksm_pages.dom().subset_of(unmerged_on(s, todo, released).todo.to_set()),
        unmerged_on(s, todo, released).ask is None ==> unmerged_on(s, todo, released).todo.len()
            == 0,
    decreases todo.len(),
{
    if todo.len() > 0 {
        let addr = todo.last();
        let front = todo.drop_last();
        let covered = s.info.uksm_pages.dom().subset_of(todo.to_set());
        if !s.info.uksm_pages.contains_key(addr) {
            lemma_unmerged_on_kept(s, front, false);
            if covered {
                assert forall|a: u64| s.info.uksm_pages.dom().contains(a) implies front.to_set().contains(
                    a,
                ) by {
                    lemma_in_front(todo, a);
                }
            }
        } else if released {
            let page = PidAddr { pid: s.info.pid, addr };
            let crc = s.info.uksm_pages[addr].crc;
            let next = State { info: demoted(s.info, addr), uksm: removed(s.uksm, page, crc) };
            lemma_demoted_sound(s, addr);
            lemma_removed_foreign(s.uksm, page, crc);
            assert(settled(next.info) =~= settled(s.info));
            lemma_unmerged_on_kept(next, front, false);
            if covered {
                assert forall|a: u64| next.info.uksm_pages.dom().contains(a) implies front.to_set().contains(
                    a,
                ) by {
                    assert(s.info.uksm_pages.dom().contains(a));
                    lemma_in_front(todo, a);
                }
            }
        }
    }
}

/// An entry of a queue that is not its last stands in the queue without
/// the last.
pub proof fn lemma_in_front(todo: Seq<u64>, a: u64)
    requires
        todo.to_set().contains(a),
        todo.len() > 0,
        todo.last() != a,
    ensures
        todo.drop_last().to_set().contains(a),
{
    let i = choose|i: int| 0 <= i < todo.len() && todo[i] == a;
    assert(todo.drop_last()[i] == a);
}

/// Whether `steps` are the steps of a pass that merges the pages `todo`
/// of the tracker of `s`: the first step begins the pass, and each further
/// step goes on with the answer of the kernel to what the step before it
/// asked.
pub open spec fn is_merge_run(s: State, todo: Seq<u64>, answers: Seq<bool>, steps: Seq<Step>) -> bool {
    &&& steps.len() == answers.len() + 1
    &&& steps[0] == merged_on(s, todo, Seq::empty())
    &&& forall|i: int|
        0 <= i < answers.len() ==> (#[trigger] steps[i]).ask is Some && steps[i + 1] == merged_on(
            steps[i].state,
            steps[i].todo,
            steps[i].verdicts.push(answers[i]),
        )
}

/// Whether `steps` are the steps of a pass that unmerges the pages `todo`
/// of the tracker of `s`, in which the kernel takes every page out that it
/// is told to: the first step begins the pass, and each further step goes
/// on after the kernel has done what the step before it asked.
pub open spec fn is_unmerge_run(s: State, todo: Seq<u64>, steps: Seq<Step>) -> bool {
    &&& steps.len() > 0
    &&& steps[0] == unmerged_on(s, todo, false)
    &&& forall|i: int|
        0 <= i < steps.len() - 1 ==> (#[trigger] steps[i]).ask is Some && steps[i + 1]
            == unmerged_on(steps[i].state, steps[i].todo, true)
}

/// Every step of a pass that merges leaves what a pass leaves.
pub proof fn lemma_merge_run(s: State, todo: Seq<u64>, answers: Seq<bool>, steps: Seq<Step>, i: int)
    requires
        sound(s),
        is_merge_run(s, todo, answers, steps),
        0 <= i < steps.len(),
    ensures
        evolves(s, steps[i].state),
        pass_kept(s, steps[i].state),
    decreases i,
{
    if i == 0 {
        lemma_merged_on_sound(s, todo, Seq::empty());
        lemma_merged_on_kept(s, todo, Seq::empty());
    } else {
        lemma_merge_run(s, todo, answers, steps, i - 1);
        let before = steps[i - 1];
        assert(steps[i] == merged_on(before.state, before.todo, before.verdicts.push(answers[i - 1])));
        lemma_merged_on_sound(before.state, before.todo, before.verdicts.push(answers[i - 1]));
        lemma_merged_on_kept(before.state, before.todo, before.verdicts.push(answers[i - 1]));
        lemma_evolves_twice(s, before.state, steps[i].state);
    }
}

/// Every step of a pass that unmerges leaves what a pass leaves, and
/// has all merged pages still to take if the pass had so at its
/// beginning.
pub proof fn lemma_unmerge_run(s: State, todo: Seq<u64>, steps: Seq<Step>, i: int)
    requires
        sound(s),
        is_unmerge_run(s, todo, steps),
        0 <= i < steps.len(),
    ensures
        evolves(s, steps[i].state),
        pass_kept(s, steps[i].state),
        s.info.uksm_pages.dom().subset_of(todo.to_set()) ==> steps[i].state.info.uksm_pages.dom().subset_of(
            steps[i].todo.to_set(),
        ),
        steps[i].ask is None ==> steps[i].todo.len() == 0,
    decreases i,
{
    if i == 0 {
        lemma_unmerged_on_sound(s, todo, false);
        lemma_unmerged_on_kept(s, todo, false);
    } else {
        lemma_unmerge_run(s, todo, steps, i - 1);
        let before = steps[i - 1];
        assert(steps[i] == unmerged_on(before.state, before.todo, true));
        lemma_unmerged_on_sound(before.state, before.todo, true);
        lemma_unmerged_on_kept(before.state, before.todo, true);
        lemma_evolves_twice(s, before.state, steps[i].state);
    }
}

/// A pass that merges the pages of a process, followed by a pass that
/// unmerges them, gives back what there was, whatever the kernel answered
/// while merging.
///
/// `s` is a tracker without merged pages and the index, in a state that the
/// operations of this crate lead to.  `merging` are the steps of a pass that
/// merges, with `answers` as the answers of the kernel.  `unmerging` are
/// the steps of a pass that follows it, unmerges every merged page, and
/// comes to its end.  Then every page that was old is old again, with the
/// fingerprint it had; the new pages are the same; no page is merged; and
/// the index is what it was.
pub proof fn merge_then_unmerge_restores(
    s: State,
    merge_todo: Seq<u64>,
    answers: Seq<bool>,
    merging: Seq<Step>,
    unmerge_todo: Seq<u64>,
    unmerging: Seq<Step>,
)
    requires
        sound(s),
        exact(s),
        s.info.uksm_pages.dom() == Set::<u64>::empty(),
        is_merge_run(s, merge_todo, answers, merging),
        merging.last().state.info.uksm_pages.dom().subset_of(unmerge_todo.to_set()),
        is_unmerge_run(merging.last().state, unmerge_todo, unmerging),
        unmerging.last().ask is None,
    ensures
        unmerging.last().state.info.old_pages == s.info.old_pages,
        unmerging.last().state.info.new_pages == s.info.new_pages,
        unmerging.last().state.info.uksm_pages == s.info.uksm_pages,
        unmerging.last().state.uksm == s.uksm,
{
    let mid = merging.last().state;
    let end = unmerging.last().state;
    let pid = s.info.pid;
    lemma_merge_run(s, merge_todo, answers, merging, merging.len() - 1);
    lemma_unmerge_run(mid, unmerge_todo, unmerging, unmerging.len() - 1);
    lemma_evolves_twice(s, mid, end);
    // No page is merged at the end.
    assert(unmerging.last().todo.to_set() =~= Set::<u64>::empty());
    assert(end.info.uksm_pages.dom() =~= Set::<u64>::empty());
    assert(end.info.uksm_pages =~= s.info.uksm_pages);
    // The pages that are old or merged are the same, and none is merged.
    assert(settled(end.info) == settled(s.info));
    assert(settled(end.info) =~= end.info.old_pages);
    assert(settled(s.info) =~= s.info.old_pages);
    // The index holds no page of the process, before or after.
    assert forall|page: PidAddr, crc: u32| #[trigger] holds(s.uksm, page, crc) implies page.pid
        != pid by {
        if page.pid == pid {
            assert(holds(s.uksm, PidAddr { pid: s.info.pid, addr: page.addr }, crc));
            assert(s.info.uksm_pages.dom().contains(page.addr));
        }
    }
    assert forall|page: PidAddr, crc: u32| #[trigger] holds(end.uksm, page, crc) implies page.pid
        != pid by {
        if page.pid == pid {
            assert(holds(end.uksm, PidAddr { pid: end.info.pid, addr: page.addr }, crc));
            assert(end.info.uksm_pages.dom().contains(page.addr));
        }
    }
    lemma_unlisted_foreign(s.uksm, pid);
    lemma_unlisted_foreign(end.uksm, pid);
}

} // verus!
