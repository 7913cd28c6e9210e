//! The daemon as a whole: the registry, the queues, the trackers, the
//! merge index and the worker, and what holds of them at every moment.

use crate::agent::{commanded, AgentCmd, AgentReturn};
use crate::page::unmerged_on;
use crate::task::{
    handled, last_task, merged_all, next_work, other_pids, other_tasks, popped, prepared,
    refreshed_all, state_of, unmerging, AsyncWork, JobView, Pages, Queues, Reply, TaskInfo,
};
use crate::pass_lemmas::lemma_unmerged_on_kept;
use crate::task_lemmas::{consistent, lemma_handled, lemma_with_state, unlisted};
use crate::tracker_lemmas::lemma_unmerged_on_sound;
use crate::uksm::{holds, PidAddr};
use vstd::prelude::*;

verus! {

/// A worker: the kind of work it was started for, and the job it is at.
/// Between two jobs the job is `JobView::Done`.
pub struct Worker {
    pub work: AsyncWork,
    pub job: JobView,
}

/// The daemon as a value.
pub struct System {
    /// The registry and the queues.
    pub queues: Queues,
    /// The trackers and the merge index.
    pub pages: Pages,
    /// The worker, if one is running.
    pub worker: Option<Worker>,
}

/// The daemon before the first command.
pub open spec fn initial(page_size: u64) -> System {
    System {
        queues: Queues {
            map: Map::empty(),
            refresh_target: Seq::empty(),
            merge_target: Seq::empty(),
            unmerge_target: Seq::empty(),
            del_target: Seq::empty(),
            page_size,
        },
        pages: Pages { trackers: Map::empty(), uksm: Map::empty(), page_size },
        worker: None,
    }
}

/// The job that the worker is at; `JobView::Done` where no worker runs.
pub open spec fn job_of(s: System) -> JobView {
    match s.worker {
        Some(w) => w.job,
        None => JobView::Done,
    }
}

/// The kind of work that the worker was started for.
pub open spec fn work_of(s: System) -> Option<AsyncWork> {
    match s.worker {
        Some(w) => Some(w.work),
        None => None,
    }
}

/// A command of the control interface is carried out.  While a worker
/// drops trackers, no process is taken out of the registry.
pub open spec fn commands(a: System, b: System) -> bool {
    &&& b.pages == a.pages
    &&& b.worker == a.worker
    &&& exists|cmd: AgentCmd, available: bool, ret: AgentReturn|
        {
            &&& #[trigger] commanded(a.queues, cmd, available, b.queues, ret)
            &&& !(cmd is Del && work_of(a) == Some(AsyncWork::Del))
        }
}

/// A worker is started for the kind of work that is due.
pub open spec fn starts(a: System, b: System) -> bool {
    &&& a.worker is None
    &&& next_work(a.queues) matches Some(work)
    &&& b == (System { worker: Some(Worker { work, job: JobView::Done }), ..a })
}

/// The worker takes the next piece of work off its queue.
pub open spec fn takes(a: System, b: System) -> bool {
    &&& a.worker matches Some(w)
    &&& w.job == JobView::Done
    &&& last_task(a.queues, w.work) matches Some(task)
    &&& b.queues == popped(a.queues, w.work)
    &&& b.pages == a.pages
    &&& b.worker matches Some(v)
    &&& v.work == w.work
    &&& prepared(a.pages, task, v.job)
}

/// Whether the worker and the kernel do what a job needs: a job that
/// drops a tracker is begun, and in a job that unmerges the kernel takes
/// out the page that it is told to.
pub open spec fn obliging(job: JobView, reply: Reply) -> bool {
    &&& job is Del ==> reply is Start
    &&& job is UnMerge ==> reply is Start || reply == Reply::Unmerged(Ok(()))
}

/// The worker goes one step on with its job.
pub open spec fn handles(a: System, b: System) -> bool {
    &&& a.worker matches Some(w)
    &&& b.queues == a.queues
    &&& exists|reply: Reply|
        {
            &&& obliging(w.job, reply)
            &&& b.pages == (#[trigger] handled(a.pages, w.job, reply)).0
            &&& b.worker == Some(Worker { work: w.work, job: handled(a.pages, w.job, reply).1 })
        }
}

/// The worker ends between two jobs: its queue is empty, or it is a
/// worker that merges and the kernel could not be told to flush its
/// deferred page lists.
pub open spec fn ends(a: System, b: System) -> bool {
    &&& a.worker matches Some(w)
    &&& w.job == JobView::Done
    &&& last_task(a.queues, w.work) is None || w.work == AsyncWork::Merge
    &&& b == (System { worker: None, ..a })
}

/// One thing happens.
pub open spec fn next(a: System, b: System) -> bool {
    commands(a, b) || starts(a, b) || takes(a, b) || handles(a, b) || ends(a, b)
}

/// Whether the tracker of the process is about to be dropped.
pub open spec fn doomed(s: System, pid: u64) -> bool {
    s.queues.del_target.contains(pid) || job_of(s) == JobView::Del(pid)
}

/// Whether the worker is unmerging the process and has all its merged
/// pages still to take.
pub open spec fn unmerging_all(s: System, pid: u64) -> bool {
    &&& job_of(s) matches JobView::UnMerge { pid: of, todo }
    &&& of == pid
    &&& s.pages.trackers.contains_key(pid) ==> s.pages.trackers[pid].uksm_pages.dom().subset_of(
        todo.to_set(),
    )
}

/// Whether the job of a worker is of the kind that the worker was started
/// for.
pub open spec fn fits(w: Worker) -> bool {
    match w.job {
        JobView::Del(_) => w.work == AsyncWork::Del,
        JobView::UnMerge { .. } => w.work == AsyncWork::UnMerge,
        JobView::Merge { .. } => w.work == AsyncWork::Merge,
        JobView::Refresh(_) => w.work == AsyncWork::Refresh,
        JobView::Summary(_) => w.work == AsyncWork::Refresh,
        JobView::Sampling { .. } => w.work == AsyncWork::Refresh,
        JobView::Done => true,
    }
}

/// What holds of the registry and the queues at every moment.
pub open spec fn queues_inv(s: System) -> bool {
    &&& forall|pid: u64| #[trigger]
        s.queues.map.contains_key(pid) ==> s.queues.map[pid].pid == pid
    &&& forall|i: int|
        0 <= i < s.queues.refresh_target.len() ==> s.queues.map.contains_key(
            (#[trigger] s.queues.refresh_target[i]).pid,
        )
}

/// What holds of the worker at every moment.
pub open spec fn worker_inv(s: System) -> bool {
    &&& s.worker matches Some(w) ==> fits(w)
    &&& job_of(s) matches JobView::Refresh(t) ==> s.queues.map.contains_key(t.pid)
        || s.queues.del_target.contains(t.pid)
    &&& job_of(s) matches JobView::UnMerge { pid, todo } ==> unmerging_all(s, pid)
    &&& work_of(s) == Some(AsyncWork::Del) ==> s.queues.unmerge_target.len() == 0
    &&& work_of(s) == Some(AsyncWork::Refresh) || work_of(s) == Some(AsyncWork::Merge)
        ==> forall|pid: u64| #[trigger]
        s.queues.del_target.contains(pid) ==> s.queues.unmerge_target.contains(pid)
}

/// What holds at every moment.
///
/// - The trackers and the index are well formed and consistent.
/// - Every process that has a tracker is registered, or its tracker is
///   about to be dropped.
/// - Of a process whose tracker is about to be dropped the index holds
///   no page, or the process is still to be unmerged, or it is being
///   unmerged.
pub open spec fn inv(s: System) -> bool {
    &&& s.pages.wf()
    &&& consistent(s.pages)
    &&& queues_inv(s)
    &&& worker_inv(s)
    &&& forall|pid: u64| #[trigger]
        s.pages.trackers.contains_key(pid) ==> s.queues.map.contains_key(pid) || doomed(s, pid)
    &&& forall|pid: u64| #[trigger]
        doomed(s, pid) ==> unlisted(s.pages.uksm, pid) || s.queues.unmerge_target.contains(pid)
            || unmerging_all(s, pid)
}

/// Whether no work is left and no worker is running.
pub open spec fn drained(s: System) -> bool {
    &&& s.worker is None
    &&& s.queues.refresh_target.len() == 0
    &&& s.queues.merge_target.len() == 0
    &&& s.queues.unmerge_target.len() == 0
    &&& s.queues.del_target.len() == 0
}

/// The daemon begins in a state of which `inv` holds.
pub proof fn lemma_initial(page_size: u64)
    requires
        page_size > 0,
    ensures
        inv(initial(page_size)),
{
    let s = initial(page_size);
    assert forall|pid: u64| #[trigger] doomed(s, pid) implies unlisted(s.pages.uksm, pid) by {
        assert(s.queues.del_target.contains(pid));
    }
}

/// What a queue of processes holds without the entries of a process.
pub proof fn lemma_other_pids(queue: Seq<u64>, pid: u64)
    ensures
        forall|x: u64| #[trigger] other_pids(queue, pid).contains(x) <==> queue.contains(x) && x != pid,
    decreases queue.len(),
{
    if queue.len() > 0 {
        let front = queue.drop_last();
        let last = queue.last();
        lemma_other_pids(front, pid);
        let rest = other_pids(front, pid);
        assert forall|x: u64| #[trigger]
            other_pids(queue, pid).contains(x) <==> queue.contains(x) && x != pid by {
            if queue.contains(x) {
                let i = choose|i: int| 0 <= i < queue.len() && queue[i] == x;
                if i < front.len() {
                    assert(front[i] == x);
                }
            }
            if front.contains(x) {
                let i = choose|i: int| 0 <= i < front.len() && front[i] == x;
                assert(queue[i] == x);
            }
            assert(queue[queue.len() - 1] == last);
            if last != pid {
                let out = rest.push(last);
                assert(out[rest.len() as int] == last);
                if rest.contains(x) {
                    let i = choose|i: int| 0 <= i < rest.len() && rest[i] == x;
                    assert(out[i] == x);
                }
                if out.contains(x) {
                    let i = choose|i: int| 0 <= i < out.len() && out[i] == x;
                    if i < rest.len() {
                        assert(rest[i] == x);
                    }
                }
            }
        }
    }
}

/// What a queue of tasks holds without the entries of a process.
pub proof fn lemma_other_tasks(queue: Seq<TaskInfo>, pid: u64)
    ensures
        forall|t: TaskInfo| #[trigger]
            other_tasks(queue, pid).contains(t) <==> queue.contains(t) && t.pid != pid,
    decreases queue.len(),
{
    if queue.len() > 0 {
        let front = queue.drop_last();
        let last = queue.last();
        lemma_other_tasks(front, pid);
        let rest = other_tasks(front, pid);
        assert forall|t: TaskInfo| #[trigger]
            other_tasks(queue, pid).contains(t) <==> queue.contains(t) && t.pid != pid by {
            if queue.contains(t) {
                let i = choose|i: int| 0 <= i < queue.len() && queue[i] == t;
                if i < front.len() {
                    assert(front[i] == t);
                }
            }
            if front.contains(t) {
                let i = choose|i: int| 0 <= i < front.len() && front[i] == t;
                assert(queue[i] == t);
            }
            assert(queue[queue.len() - 1] == last);
            if last.pid != pid {
                let out = rest.push(last);
                assert(out[rest.len() as int] == last);
                if rest.contains(t) {
                    let i = choose|i: int| 0 <= i < rest.len() && rest[i] == t;
                    assert(out[i] == t);
                }
                if out.contains(t) {
                    let i = choose|i: int| 0 <= i < out.len() && out[i] == t;
                    if i < rest.len() {
                        assert(rest[i] == t);
                    }
                }
            }
        }
    }
}

/// What a queue holds after an entry has been appended.
pub proof fn lemma_pushed<T>(queue: Seq<T>, entry: T)
    ensures
        forall|x: T| #[trigger] queue.push(entry).contains(x) <==> queue.contains(x) || x == entry,
{
    let out = queue.push(entry);
    assert(out[queue.len() as int] == entry);
    assert forall|x: T| #[trigger] out.contains(x) <==> queue.contains(x) || x == entry by {
        if queue.contains(x) {
            let i = choose|i: int| 0 <= i < queue.len() && queue[i] == x;
            assert(out[i] == x);
        }
        if out.contains(x) {
            let i = choose|i: int| 0 <= i < out.len() && out[i] == x;
            if i < queue.len() {
                assert(queue[i] == x);
            }
        }
    }
}

/// What a queue holds without its last entry.
pub proof fn lemma_dropped_last<T>(queue: Seq<T>)
    requires
        queue.len() > 0,
    ensures
        forall|x: T| #[trigger] queue.drop_last().contains(x) ==> queue.contains(x),
        forall|x: T| queue.contains(x) && x != queue.last() ==> #[trigger] queue.drop_last().contains(x),
{
    let front = queue.drop_last();
    assert forall|x: T| #[trigger] front.contains(x) implies queue.contains(x) by {
        let i = choose|i: int| 0 <= i < front.len() && front[i] == x;
        assert(queue[i] == x);
    }
    assert forall|x: T| queue.contains(x) && x != queue.last() implies #[trigger] front.contains(x) by {
        let i = choose|i: int| 0 <= i < queue.len() && queue[i] == x;
        assert(front[i] == x);
    }
}

/// Registering a process keeps `inv`.
pub proof fn lemma_registers(a: System, b: System, req: crate::protocols::AddRequest)
    requires
        inv(a),
        b.pages == a.pages,
        b.worker == a.worker,
        b.queues == crate::task::registered(a.queues, req),
    ensures
        inv(b),
{
    let task = TaskInfo { pid: req.pid, addr: crate::task::window_of(req) };
    lemma_pushed(a.queues.refresh_target, task);
    assert forall|i: int| 0 <= i < b.queues.refresh_target.len() implies b.queues.map.contains_key(
        (#[trigger] b.queues.refresh_target[i]).pid,
    ) by {
        if i < a.queues.refresh_target.len() {
            assert(b.queues.refresh_target[i] == a.queues.refresh_target[i]);
        }
    }
    assert forall|pid: u64| #[trigger] b.pages.trackers.contains_key(pid) implies b.queues.map.contains_key(
        pid,
    ) || doomed(b, pid) by {
        assert(a.pages.trackers.contains_key(pid));
        assert(doomed(a, pid) == doomed(b, pid));
    }
    assert forall|pid: u64| #[trigger] doomed(b, pid) implies unlisted(b.pages.uksm, pid)
        || b.queues.unmerge_target.contains(pid) || unmerging_all(b, pid) by {
        assert(doomed(a, pid));
        assert(unmerging_all(a, pid) == unmerging_all(b, pid));
    }
    if job_of(b) is UnMerge {
        assert(unmerging_all(a, job_of(a)->UnMerge_pid) == unmerging_all(
            b,
            job_of(b)->UnMerge_pid,
        ));
    }
}

/// Taking a process out of the registry keeps `inv`, unless a worker is
/// dropping trackers.
pub proof fn lemma_deletes(a: System, b: System, pid: u64)
    requires
        inv(a),
        b.pages == a.pages,
        b.worker == a.worker,
        b.queues == crate::task::deleted(a.queues, pid),
        work_of(a) != Some(AsyncWork::Del),
    ensures
        inv(b),
{
    lemma_other_pids(a.queues.unmerge_target, pid);
    lemma_other_pids(a.queues.del_target, pid);
    lemma_other_tasks(a.queues.refresh_target, pid);
    lemma_pushed(other_pids(a.queues.unmerge_target, pid), pid);
    lemma_pushed(other_pids(a.queues.del_target, pid), pid);
    assert forall|i: int| 0 <= i < b.queues.refresh_target.len() implies b.queues.map.contains_key(
        (#[trigger] b.queues.refresh_target[i]).pid,
    ) by {
        let t = b.queues.refresh_target[i];
        assert(b.queues.refresh_target.contains(t));
        assert(a.queues.refresh_target.contains(t));
        let j = choose|j: int| 0 <= j < a.queues.refresh_target.len() && a.queues.refresh_target[j] == t;
        assert(a.queues.map.contains_key(a.queues.refresh_target[j].pid));
    }
    assert forall|x: u64| #[trigger] doomed(a, x) implies doomed(b, x) by {
        if a.queues.del_target.contains(x) {
            if x != pid {
                assert(other_pids(a.queues.del_target, pid).contains(x));
            }
        }
    }
    assert forall|x: u64| #[trigger] b.pages.trackers.contains_key(x) implies b.queues.map.contains_key(
        x,
    ) || doomed(b, x) by {
        assert(a.pages.trackers.contains_key(x));
        if a.queues.map.contains_key(x) && x == pid {
            assert(b.queues.del_target.contains(pid));
        } else if !a.queues.map.contains_key(x) {
            assert(doomed(a, x));
        }
    }
    assert forall|x: u64| #[trigger] doomed(b, x) implies unlisted(b.pages.uksm, x)
        || b.queues.unmerge_target.contains(x) || unmerging_all(b, x) by {
        if x == pid {
            assert(b.queues.unmerge_target.contains(pid));
        } else {
            if b.queues.del_target.contains(x) {
                assert(other_pids(a.queues.del_target, pid).contains(x));
                assert(a.queues.del_target.contains(x));
            }
            assert(doomed(a, x));
            assert(unmerging_all(a, x) == unmerging_all(b, x));
            if a.queues.unmerge_target.contains(x) {
                assert(other_pids(a.queues.unmerge_target, pid).contains(x));
            }
        }
    }
    if work_of(b) == Some(AsyncWork::Refresh) || work_of(b) == Some(AsyncWork::Merge) {
        assert forall|x: u64| #[trigger] b.queues.del_target.contains(x) implies b.queues.unmerge_target.contains(
            x,
        ) by {
            if x != pid {
                assert(other_pids(a.queues.del_target, pid).contains(x));
                assert(a.queues.del_target.contains(x));
                assert(a.queues.unmerge_target.contains(x));
                assert(other_pids(a.queues.unmerge_target, pid).contains(x));
            }
        }
    }
    if job_of(b) is UnMerge {
        assert(unmerging_all(a, job_of(a)->UnMerge_pid) == unmerging_all(
            b,
            job_of(b)->UnMerge_pid,
        ));
    }
    match job_of(b) {
        JobView::Refresh(t) => {
            if t.pid != pid && a.queues.del_target.contains(t.pid) {
                assert(other_pids(a.queues.del_target, pid).contains(t.pid));
            }
        },
        _ => {},
    }
}

/// Queueing a look at every registered process keeps `inv`, and so does
/// queueing their merging.
pub proof fn lemma_queues_all(a: System, b: System)
    requires
        inv(a),
        b.pages == a.pages,
        b.worker == a.worker,
        refreshed_all(a.queues, b.queues) || merged_all(a.queues, b.queues),
    ensures
        inv(b),
{
    if refreshed_all(a.queues, b.queues) {
        assert forall|i: int| 0 <= i < b.queues.refresh_target.len() implies b.queues.map.contains_key(
            (#[trigger] b.queues.refresh_target[i]).pid,
        ) by {
            let t = b.queues.refresh_target[i];
            assert(b.queues.refresh_target.to_set().contains(t));
            if a.queues.refresh_target.to_set().contains(t) {
                let j = choose|j: int|
                    0 <= j < a.queues.refresh_target.len() && a.queues.refresh_target[j] == t;
                assert(a.queues.map.contains_key(a.queues.refresh_target[j].pid));
            } else {
                assert(a.queues.map.values().contains(t));
                let k = choose|k: u64| a.queues.map.contains_key(k) && a.queues.map[k] == t;
                assert(a.queues.map[k].pid == k);
            }
        }
    }
    assert forall|pid: u64| #[trigger] b.pages.trackers.contains_key(pid) implies b.queues.map.contains_key(
        pid,
    ) || doomed(b, pid) by {
        assert(a.pages.trackers.contains_key(pid));
        assert(doomed(a, pid) == doomed(b, pid));
    }
    assert forall|pid: u64| #[trigger] doomed(b, pid) implies unlisted(b.pages.uksm, pid)
        || b.queues.unmerge_target.contains(pid) || unmerging_all(b, pid) by {
        assert(doomed(a, pid));
        assert(unmerging_all(a, pid) == unmerging_all(b, pid));
    }
    if job_of(b) is UnMerge {
        assert(unmerging_all(a, job_of(a)->UnMerge_pid) == unmerging_all(
            b,
            job_of(b)->UnMerge_pid,
        ));
    }
}

/// A command keeps `inv`.
pub proof fn lemma_commands(a: System, b: System)
    requires
        inv(a),
        commands(a, b),
    ensures
        inv(b),
{
    let (cmd, available, ret) = choose|cmd: AgentCmd, available: bool, ret: AgentReturn|
        {
            &&& #[trigger] commanded(a.queues, cmd, available, b.queues, ret)
            &&& !(cmd is Del && work_of(a) == Some(AsyncWork::Del))
        };
    match cmd {
        AgentCmd::Add(req) => {
            if crate::task::admits(a.queues, req, available) {
                lemma_registers(a, b, req);
            } else {
                assert(b == a);
            }
        },
        AgentCmd::Del(req) => {
            if a.queues.map.contains_key(req.pid) {
                lemma_deletes(a, b, req.pid);
            } else {
                assert(b == a);
            }
        },
        AgentCmd::Refresh => {
            lemma_queues_all(a, b);
        },
        AgentCmd::Merge => {
            let between = choose|between: Queues| #[trigger]
                refreshed_all(a.queues, between) && merged_all(between, b.queues);
            let mid = System { queues: between, ..a };
            lemma_queues_all(a, mid);
            lemma_queues_all(mid, b);
        },
    }
}

/// Starting a worker keeps `inv`.
pub proof fn lemma_starts(a: System, b: System)
    requires
        inv(a),
        starts(a, b),
    ensures
        inv(b),
{
    assert forall|pid: u64| #[trigger] b.pages.trackers.contains_key(pid) implies b.queues.map.contains_key(
        pid,
    ) || doomed(b, pid) by {
        assert(a.pages.trackers.contains_key(pid));
        assert(doomed(a, pid) == doomed(b, pid));
    }
    assert forall|pid: u64| #[trigger] doomed(b, pid) implies unlisted(b.pages.uksm, pid)
        || b.queues.unmerge_target.contains(pid) || unmerging_all(b, pid) by {
        assert(doomed(a, pid));
    }
    if work_of(b) == Some(AsyncWork::Refresh) || work_of(b) == Some(AsyncWork::Merge) {
        assert forall|x: u64| #[trigger] b.queues.del_target.contains(x) implies b.queues.unmerge_target.contains(
            x,
        ) by {
            assert(b.queues.del_target.len() == 0);
        }
    }
}

/// The end of a worker keeps `inv`.
pub proof fn lemma_ends(a: System, b: System)
    requires
        inv(a),
        ends(a, b),
    ensures
        inv(b),
{
    assert forall|pid: u64| #[trigger] b.pages.trackers.contains_key(pid) implies b.queues.map.contains_key(
        pid,
    ) || doomed(b, pid) by {
        assert(a.pages.trackers.contains_key(pid));
        assert(doomed(a, pid) == doomed(b, pid));
    }
    assert forall|pid: u64| #[trigger] doomed(b, pid) implies unlisted(b.pages.uksm, pid)
        || b.queues.unmerge_target.contains(pid) || unmerging_all(b, pid) by {
        assert(doomed(a, pid));
    }
}

/// Taking a piece of work off a queue keeps `inv`.
pub proof fn lemma_takes(a: System, b: System)
    requires
        inv(a),
        takes(a, b),
    ensures
        inv(b),
{
    let w = a.worker->0;
    let v = b.worker->0;
    let task = last_task(a.queues, w.work)->0;
    match w.work {
        AsyncWork::UnMerge => {
            lemma_dropped_last(a.queues.unmerge_target);
            let pid = a.queues.unmerge_target.last();
            assert(unmerging_all(b, pid));
            assert forall|x: u64| #[trigger] doomed(b, x) implies unlisted(b.pages.uksm, x)
                || b.queues.unmerge_target.contains(x) || unmerging_all(b, x) by {
                assert(doomed(a, x));
                assert(!unmerging_all(a, x));
            }
            assert forall|x: u64| #[trigger] b.pages.trackers.contains_key(x) implies b.queues.map.contains_key(
                x,
            ) || doomed(b, x) by {
                assert(a.pages.trackers.contains_key(x));
                assert(doomed(a, x) == doomed(b, x));
            }
        },
        AsyncWork::Del => {
            lemma_dropped_last(a.queues.del_target);
            let pid = a.queues.del_target.last();
            assert(a.queues.del_target.contains(pid)) by {
                assert(a.queues.del_target[a.queues.del_target.len() - 1] == pid);
            }
            assert forall|x: u64| #[trigger] doomed(b, x) implies unlisted(b.pages.uksm, x)
                || b.queues.unmerge_target.contains(x) || unmerging_all(b, x) by {
                assert(doomed(a, x));
                assert(!unmerging_all(a, x));
                assert(!a.queues.unmerge_target.contains(x));
            }
            assert forall|x: u64| #[trigger] b.pages.trackers.contains_key(x) implies b.queues.map.contains_key(
                x,
            ) || doomed(b, x) by {
                assert(a.pages.trackers.contains_key(x));
                if !a.queues.map.contains_key(x) {
                    assert(doomed(a, x));
                    assert(a.queues.del_target.contains(x));
                }
            }
        },
        AsyncWork::Refresh => {
            let t = a.queues.refresh_target.last();
            assert(a.queues.map.contains_key(
                a.queues.refresh_target[a.queues.refresh_target.len() - 1].pid,
            ));
            assert forall|i: int|
                0 <= i < b.queues.refresh_target.len() implies b.queues.map.contains_key(
                (#[trigger] b.queues.refresh_target[i]).pid,
            ) by {
                assert(b.queues.refresh_target[i] == a.queues.refresh_target[i]);
            }
            assert forall|x: u64| #[trigger] doomed(b, x) implies unlisted(b.pages.uksm, x)
                || b.queues.unmerge_target.contains(x) || unmerging_all(b, x) by {
                assert(doomed(a, x));
                assert(!unmerging_all(a, x));
            }
            assert forall|x: u64| #[trigger] b.pages.trackers.contains_key(x) implies b.queues.map.contains_key(
                x,
            ) || doomed(b, x) by {
                assert(a.pages.trackers.contains_key(x));
                assert(doomed(a, x) == doomed(b, x));
            }
        },
        AsyncWork::Merge => {
            assert forall|x: u64| #[trigger] doomed(b, x) implies unlisted(b.pages.uksm, x)
                || b.queues.unmerge_target.contains(x) || unmerging_all(b, x) by {
                assert(doomed(a, x));
                assert(!unmerging_all(a, x));
            }
            assert forall|x: u64| #[trigger] b.pages.trackers.contains_key(x) implies b.queues.map.contains_key(
                x,
            ) || doomed(b, x) by {
                assert(a.pages.trackers.contains_key(x));
                assert(doomed(a, x) == doomed(b, x));
            }
        },
    }
}

/// What a step of a job leaves of the set of the processes that have a
/// tracker, and of which kind the job is after the step.
pub proof fn lemma_handled_shape(p: Pages, job: JobView, reply: Reply)
    requires
        p.wf(),
    ensures
        ({
            let (q, next, _) = handled(p, job, reply);
            &&& q.trackers.dom() == match (job, reply) {
                (JobView::Del(pid), Reply::Start) => p.trackers.dom().remove(pid),
                (JobView::Refresh(task), Reply::Start) => p.trackers.dom().insert(task.pid),
                _ => p.trackers.dom(),
            }
            &&& !(next is Del) && !(next is Refresh)
            &&& next is Summary || next is Sampling ==> job is Refresh || job is Summary
                || job is Sampling
            &&& next is Merge ==> job is Merge
            &&& next is UnMerge ==> job is UnMerge
            &&& job is Del || job is Done ==> q.uksm == p.uksm
        }),
{
    let (q, next, _) = handled(p, job, reply);
    match (job, reply) {
        (JobView::Del(pid), Reply::Start) => {
            assert(q.trackers.dom() =~= p.trackers.dom().remove(pid));
        },
        (JobView::Refresh(task), Reply::Start) => {
            assert(q.trackers.dom() =~= p.trackers.dom().insert(task.pid));
        },
        (JobView::Summary(task), Reply::Smaps(Some(text))) => {
            match crate::proc::smaps_ranges(text@, task.addr) {
                Some(maps) => lemma_sampling_shape(p, task, maps, Seq::empty()),
                None => {},
            }
        },
        (JobView::Sampling { task, maps, samples }, Reply::Pagemap(Some(entries))) => {
            lemma_sampling_shape(p, task, maps, samples.push(entries@));
        },
        (JobView::Sampling { task, maps, samples }, Reply::Pagemap(None)) => {
            lemma_sampling_shape(p, task, maps, samples);
        },
        (JobView::Merge { pid, todo, verdicts }, Reply::Start) => {
            lemma_merging_shape(p, pid, todo, verdicts);
        },
        (JobView::Merge { pid, todo, verdicts }, Reply::Merged(Ok(answer))) => {
            lemma_merging_shape(p, pid, todo, verdicts.push(answer));
        },
        (JobView::UnMerge { pid, todo }, Reply::Start) => {
            lemma_unmerging_shape(p, pid, todo, false);
        },
        (JobView::UnMerge { pid, todo }, Reply::Unmerged(Ok(()))) => {
            lemma_unmerging_shape(p, pid, todo, true);
        },
        _ => {},
    }
}

/// A step of a refresh leaves the set of the processes that have a
/// tracker as it is.
pub proof fn lemma_sampling_shape(
    p: Pages,
    task: TaskInfo,
    maps: Seq<crate::proc::MapRange>,
    samples: Seq<crate::page::Sample>,
)
    requires
        p.wf(),
    ensures
        crate::task::sampling(p, task, maps, samples).0.trackers.dom() == p.trackers.dom(),
        crate::task::refreshing(p, task, maps, samples).0.trackers.dom() == p.trackers.dom(),
{
    if p.trackers.contains_key(task.pid) {
        let s = crate::page::refreshed(state_of(p, task.pid), maps, samples);
        assert(crate::task::with_state(p, task.pid, s).trackers.dom() =~= p.trackers.dom());
    }
}

/// A step of a pass that merges leaves the set of the processes that have
/// a tracker as it is.
pub proof fn lemma_merging_shape(p: Pages, pid: u64, todo: Seq<u64>, verdicts: Seq<bool>)
    requires
        p.wf(),
    ensures
        crate::task::merging(p, pid, todo, verdicts).0.trackers.dom() == p.trackers.dom(),
{
    if p.trackers.contains_key(pid) {
        let s = crate::page::merged_on(state_of(p, pid), todo, verdicts).state;
        assert(crate::task::with_state(p, pid, s).trackers.dom() =~= p.trackers.dom());
    }
}

/// A step of a pass that unmerges leaves the set of the processes that
/// have a tracker as it is.
pub proof fn lemma_unmerging_shape(p: Pages, pid: u64, todo: Seq<u64>, released: bool)
    requires
        p.wf(),
    ensures
        unmerging(p, pid, todo, released).0.trackers.dom() == p.trackers.dom(),
{
    if p.trackers.contains_key(pid) {
        let s = unmerged_on(state_of(p, pid), todo, released).state;
        assert(crate::task::with_state(p, pid, s).trackers.dom() =~= p.trackers.dom());
    }
}

/// A step of a job that unmerges: the job has all merged pages of the
/// process still to take afterwards, or it is over and the index holds no
/// page of the process; and of the other processes the index holds what it
/// held.
pub proof fn lemma_unmerging_step(p: Pages, pid: u64, todo: Seq<u64>, released: bool)
    requires
        p.wf(),
        consistent(p),
        p.trackers.contains_key(pid) ==> p.trackers[pid].uksm_pages.dom().subset_of(todo.to_set()),
    ensures
        ({
            let (q, next, _) = unmerging(p, pid, todo, released);
            &&& match next {
                JobView::UnMerge { pid: of, todo: left } => of == pid && (q.trackers.contains_key(pid)
                    ==> q.trackers[pid].uksm_pages.dom().subset_of(left.to_set())),
                JobView::Done => unlisted(q.uksm, pid),
                _ => false,
            }
            &&& forall|other: u64|
                other != pid && #[trigger] unlisted(p.uksm, other) ==> unlisted(q.uksm, other)
        }),
{
    let (q, next, _) = unmerging(p, pid, todo, released);
    lemma_handled(p, JobView::UnMerge { pid, todo }, Reply::Start);
    crate::task_lemmas::lemma_unmerging(p, pid, todo, released);
    if p.trackers.contains_key(pid) {
        let s = state_of(p, pid);
        let step = unmerged_on(s, todo, released);
        lemma_unmerged_on_sound(s, todo, released);
        lemma_unmerged_on_kept(s, todo, released);
        lemma_with_state(p, pid, step.state);
        if step.ask is None {
            assert(step.todo.to_set() =~= Set::<u64>::empty());
            assert(q.trackers[pid].uksm_pages.dom() =~= Set::<u64>::empty());
            assert forall|page: PidAddr, crc: u32| #[trigger] holds(q.uksm, page, crc) implies page.pid
                != pid by {
                if page.pid == pid {
                    assert(q.trackers[pid].uksm_pages.dom().contains(page.addr));
                }
            }
        }
    } else {
        assert forall|page: PidAddr, crc: u32| #[trigger] holds(q.uksm, page, crc) implies page.pid
            != pid by {
        }
    }
}

/// A step of a job keeps `inv`.
pub proof fn lemma_handles(a: System, b: System)
    requires
        inv(a),
        handles(a, b),
    ensures
        inv(b),
{
    let w = a.worker->0;
    let reply = choose|reply: Reply|
        {
            &&& obliging(w.job, reply)
            &&& b.pages == (#[trigger] handled(a.pages, w.job, reply)).0
            &&& b.worker == Some(Worker { work: w.work, job: handled(a.pages, w.job, reply).1 })
        };
    let p = a.pages;
    let q = b.pages;
    let next = job_of(b);
    lemma_handled_shape(p, w.job, reply);
    match w.job {
        JobView::Del(pid) => {
            assert(doomed(a, pid));
            assert(!unmerging_all(a, pid));
            assert(unlisted(p.uksm, pid));
            lemma_handled(p, w.job, reply);
            assert forall|x: u64| #[trigger] q.trackers.contains_key(x) implies b.queues.map.contains_key(
                x,
            ) || doomed(b, x) by {
                assert(p.trackers.contains_key(x));
                assert(x != pid);
                if !a.queues.map.contains_key(x) {
                    assert(doomed(a, x));
                }
            }
            assert forall|x: u64| #[trigger] doomed(b, x) implies unlisted(q.uksm, x)
                || b.queues.unmerge_target.contains(x) || unmerging_all(b, x) by {
                assert(doomed(a, x));
                assert(!unmerging_all(a, x));
            }
        },
        JobView::UnMerge { pid, todo } => {
            assert(unmerging_all(a, pid));
            let released = !(reply is Start);
            assert(handled(p, w.job, reply) == unmerging(p, pid, todo, released));
            lemma_handled(p, w.job, reply);
            lemma_unmerging_step(p, pid, todo, released);
            assert forall|x: u64| #[trigger] q.trackers.contains_key(x) implies b.queues.map.contains_key(
                x,
            ) || doomed(b, x) by {
                assert(p.trackers.contains_key(x));
                assert(doomed(a, x) == doomed(b, x));
            }
            assert forall|x: u64| #[trigger] doomed(b, x) implies unlisted(q.uksm, x)
                || b.queues.unmerge_target.contains(x) || unmerging_all(b, x) by {
                assert(doomed(a, x));
                if x != pid {
                    assert(!unmerging_all(a, x));
                    if unlisted(p.uksm, x) {
                        assert(unlisted(q.uksm, x));
                    }
                }
            }
        },
        JobView::Done => {
            assert(b.pages == a.pages);
            assert forall|x: u64| #[trigger] q.trackers.contains_key(x) implies b.queues.map.contains_key(
                x,
            ) || doomed(b, x) by {
                assert(p.trackers.contains_key(x));
                assert(doomed(a, x) == doomed(b, x));
            }
            assert forall|x: u64| #[trigger] doomed(b, x) implies unlisted(q.uksm, x)
                || b.queues.unmerge_target.contains(x) || unmerging_all(b, x) by {
                assert(doomed(a, x));
            }
        },
        _ => {
            // A job that refreshes or merges: whatever is about to be
            // dropped is still to be unmerged.
            lemma_handled(p, w.job, reply);
            assert(work_of(a) == Some(AsyncWork::Refresh) || work_of(a) == Some(AsyncWork::Merge));
            assert forall|x: u64| #[trigger] q.trackers.contains_key(x) implies b.queues.map.contains_key(
                x,
            ) || doomed(b, x) by {
                if p.trackers.contains_key(x) {
                    assert(doomed(a, x) == doomed(b, x));
                }
            }
            assert forall|x: u64| #[trigger] doomed(b, x) implies unlisted(q.uksm, x)
                || b.queues.unmerge_target.contains(x) || unmerging_all(b, x) by {
                assert(b.queues.del_target.contains(x));
            }
        },
    }
}

/// Whatever happens, `inv` holds afterwards if it held before.
pub proof fn inv_is_kept(a: System, b: System)
    requires
        inv(a),
        next(a, b),
    ensures
        inv(b),
{
    if commands(a, b) {
        lemma_commands(a, b);
    } else if starts(a, b) {
        lemma_starts(a, b);
    } else if takes(a, b) {
        lemma_takes(a, b);
    } else if handles(a, b) {
        lemma_handles(a, b);
    } else {
        lemma_ends(a, b);
    }
}

/// Whether `trace` is a run of the daemon: it begins before the first
/// command, and from each state to the next one thing happens.
pub open spec fn is_run(trace: Seq<System>, page_size: u64) -> bool {
    &&& trace.len() > 0
    &&& trace[0] == initial(page_size)
    &&& forall|i: int| 0 <= i < trace.len() - 1 ==> next(#[trigger] trace[i], trace[i + 1])
}

/// `inv` holds of every state of a run.
pub proof fn lemma_run(trace: Seq<System>, page_size: u64, i: int)
    requires
        page_size > 0,
        is_run(trace, page_size),
        0 <= i < trace.len(),
    ensures
        inv(trace[i]),
    decreases i,
{
    if i == 0 {
        lemma_initial(page_size);
    } else {
        lemma_run(trace, page_size, i - 1);
        assert(next(trace[i - 1], trace[i]));
        inv_is_kept(trace[i - 1], trace[i]);
    }
}

/// In every state of a run each tracker holds no page in two buckets,
/// every page of the index is a merged page of the tracker of its process,
/// remembered with the fingerprint that the index holds it under, and the
/// index has no empty class and no fingerprint without a class.
pub proof fn run_keeps_trackers_and_index(trace: Seq<System>, page_size: u64, i: int)
    requires
        page_size > 0,
        is_run(trace, page_size),
        0 <= i < trace.len(),
    ensures
        trace[i].pages.wf(),
        consistent(trace[i].pages),
{
    lemma_run(trace, page_size, i);
}

/// When a run has come to a state where no work is left and no worker is
/// running, every process that has a tracker is registered.
pub proof fn drained_trackers_are_registered(trace: Seq<System>, page_size: u64, i: int, pid: u64)
    requires
        page_size > 0,
        is_run(trace, page_size),
        0 <= i < trace.len(),
        drained(trace[i]),
        trace[i].pages.trackers.contains_key(pid),
    ensures
        trace[i].queues.map.contains_key(pid),
{
    lemma_run(trace, page_size, i);
    let s = trace[i];
    if !s.queues.map.contains_key(pid) {
        assert(doomed(s, pid));
        assert(s.queues.del_target.contains(pid));
    }
}

/// When a run has come to a state where no work is left and no worker is
/// running, a process that is not registered, such as one that was taken
/// out of the registry and not put in again, has no tracker, and the index
/// holds none of its pages.
pub proof fn drained_process_is_forgotten(trace: Seq<System>, page_size: u64, i: int, pid: u64)
    requires
        page_size > 0,
        is_run(trace, page_size),
        0 <= i < trace.len(),
        drained(trace[i]),
        !trace[i].queues.map.contains_key(pid),
    ensures
        !trace[i].pages.trackers.contains_key(pid),
        unlisted(trace[i].pages.uksm, pid),
{
    lemma_run(trace, page_size, i);
    let s = trace[i];
    if s.pages.trackers.contains_key(pid) {
        assert(doomed(s, pid));
        assert(s.queues.del_target.contains(pid));
    }
}

} // verus!
