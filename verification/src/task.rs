//! The registry of tracked processes, the queues of work on them, and the
//! work itself.
//!
//! Work on a process needs the kernel, and this crate does not reach it: a
//! piece of work is a `Job` that is driven step by step.  Each step takes
//! what the kernel returned for the last request and gives the next request,
//! until it gives `Request::Finished`.

use crate::error::ErrorKind;
use crate::page::{
    fits, keys_of, lemma_merged_on_frame, lemma_refreshed_frame, lemma_unmerged_on_frame, merged_on,
    refresh_result, refreshed, sample_fits, sample_views, state, unmerged_on, Info, Pass, Sample,
    State, Step, Tracker,
};
use crate::proc::{parse_task_smaps, smaps_ranges, MapRange};
use crate::protocols::{AddRequest, DelRequest};
use crate::uksm::{Index, PidAddr, UKSMPagemapEntry, Uksm};
use std::collections::HashMap;
use vstd::prelude::*;

verus! {

broadcast use vstd::std_specs::hash::group_hash_axioms;

/// A registered process, with the window its tracking is restricted to.
#[derive(Debug, Clone, Copy, PartialEq, Eq, Hash)]
pub struct TaskInfo {
    pub pid: u64,
    /// The window `[start, end)`, if tracking is restricted to one.
    pub addr: Option<(u64, u64)>,
}

impl TaskInfo {
    /// A process and its window.
    pub fn new(pid: u64, addr: Option<(u64, u64)>) -> (task: Self)
        ensures
            task == (TaskInfo { pid, addr }),
    {
        Self { pid, addr }
    }

    /// Whether two entries name the same process with the same window.
    pub fn same_as(&self, other: &TaskInfo) -> (r: bool)
        ensures
            r == (*self == *other),
    {
        self.pid == other.pid && match (self.addr, other.addr) {
            (None, None) => true,
            (Some(a), Some(b)) => a.0 == b.0 && a.1 == b.1,
            _ => false,
        }
    }
}

/// A piece of work on one process.
#[derive(Debug, Clone, Copy, PartialEq, Eq)]
pub enum HandleTask {
    /// Drop the tracker of the process.
    Del(u64),
    /// Take the merged pages of the process out of the index.
    UnMerge(u64),
    /// Look at the pages of the process again.
    Refresh(TaskInfo),
    /// Hand the old pages of the process to the index.
    Merge(u64),
}

/// What a job needs from the kernel next.
#[derive(Debug, Clone, Copy, PartialEq, Eq)]
pub enum Request {
    /// Nothing: the job is over, and this is how it ended.
    Finished(Result<(), ErrorKind>),
    /// The text of the `smaps` summary of the process.
    Smaps { pid: u64 },
    /// What the page map of the process reports of the pages of
    /// `[start, end)`.
    Pagemap { pid: u64, start: u64, end: u64 },
    /// The kernel is to merge `page` with `known` if the two hold the same
    /// bytes.
    Merge { known: PidAddr, page: PidAddr },
    /// The kernel is to take `page` out of its merged set.
    Unmerge { page: PidAddr },
}

/// What the kernel returned for a request.
#[derive(Debug)]
pub enum Reply {
    /// Nothing was asked yet: the job begins.
    Start,
    /// The text of the summary, or `None` where it could not be read.
    Smaps(Option<Vec<u8>>),
    /// What the page map reports, or `None` where it could not be read.
    Pagemap(Option<Vec<Option<UKSMPagemapEntry>>>),
    /// Whether the two pages were merged (`true`) or differ (`false`), or
    /// how asking failed.
    Merged(Result<bool, ErrorKind>),
    /// Whether the page was taken out, or how that failed.
    Unmerged(Result<(), ErrorKind>),
}

/// A piece of work in progress.
#[derive(Debug)]
pub enum Job {
    /// The tracker of the process is to be dropped.
    Del(u64),
    /// The process is to be looked at again; nothing was asked yet.
    Refresh(TaskInfo),
    /// The summary of the process was asked for.
    Summary(TaskInfo),
    /// The sample of the area `maps[samples.len()]` was asked for.
    Sampling { task: TaskInfo, maps: Vec<MapRange>, samples: Vec<Vec<Option<UKSMPagemapEntry>>> },
    /// The old pages of the process are handed to the index.
    Merge { pid: u64, pass: Pass },
    /// The merged pages of the process are taken out of the index.
    UnMerge { pid: u64, pass: Pass },
    /// The job is over.
    Done,
}

/// A job as a value.
#[verifier::ext_equal]
pub enum JobView {
    Del(u64),
    Refresh(TaskInfo),
    Summary(TaskInfo),
    Sampling { task: TaskInfo, maps: Seq<MapRange>, samples: Seq<Sample> },
    Merge { pid: u64, todo: Seq<u64>, verdicts: Seq<bool> },
    UnMerge { pid: u64, todo: Seq<u64> },
    Done,
}

impl View for Job {
    type V = JobView;

    open spec fn view(&self) -> JobView {
        match *self {
            Job::Del(pid) => JobView::Del(pid),
            Job::Refresh(task) => JobView::Refresh(task),
            Job::Summary(task) => JobView::Summary(task),
            Job::Sampling { task, maps, samples } => JobView::Sampling {
                task,
                maps: maps@,
                samples: sample_views(samples),
            },
            Job::Merge { pid, pass } => JobView::Merge {
                pid,
                todo: pass.todo@,
                verdicts: pass.verdicts@,
            },
            Job::UnMerge { pid, pass } => JobView::UnMerge { pid, todo: pass.todo@ },
            Job::Done => JobView::Done,
        }
    }
}

/// The trackers and the merge index as a value.
#[verifier::ext_equal]
pub struct Pages {
    /// The tracker of each process that has one.
    pub trackers: Map<u64, Tracker>,
    /// The merge index.
    pub uksm: Index,
    /// The size of a page.
    pub page_size: u64,
}

/// The tracker of a process together with the index.
pub open spec fn state_of(p: Pages, pid: u64) -> State {
    State { info: p.trackers[pid], uksm: p.uksm }
}

/// The trackers and the index after work on the tracker of `pid` has left
/// that tracker and the index as `s` says.
pub open spec fn with_state(p: Pages, pid: u64, s: State) -> Pages {
    Pages { trackers: p.trackers.insert(pid, s.info), uksm: s.uksm, ..p }
}

/// A tracker that holds no page.
pub open spec fn empty_tracker(pid: u64, page_size: u64) -> Tracker {
    Tracker {
        pid,
        page_size,
        maps: Seq::empty(),
        new_pages: Map::empty(),
        old_pages: Map::empty(),
        uksm_pages: Map::empty(),
    }
}

/// How a job goes on after a step of a pass.
pub open spec fn after_pass(p: Pages, pid: u64, step: Step, merging: bool) -> (
    Pages,
    JobView,
    Request,
) {
    let next = with_state(p, pid, step.state);
    match step.ask {
        Some((first, second)) => if merging {
            (
                next,
                JobView::Merge { pid, todo: step.todo, verdicts: step.verdicts },
                Request::Merge { known: first, page: second },
            )
        } else {
            (next, JobView::UnMerge { pid, todo: step.todo }, Request::Unmerge { page: second })
        },
        None => (next, JobView::Done, Request::Finished(Ok(()))),
    }
}

/// A step of a job that merges.  Where the process has no tracker, the job
/// is over and nothing has changed.
pub open spec fn merging(p: Pages, pid: u64, todo: Seq<u64>, verdicts: Seq<bool>) -> (
    Pages,
    JobView,
    Request,
) {
    if p.trackers.contains_key(pid) {
        after_pass(p, pid, merged_on(state_of(p, pid), todo, verdicts), true)
    } else {
        (p, JobView::Done, Request::Finished(Ok(())))
    }
}

/// A step of a job that unmerges.  Where the process has no tracker, the
/// job is over and nothing has changed.
pub open spec fn unmerging(p: Pages, pid: u64, todo: Seq<u64>, released: bool) -> (
    Pages,
    JobView,
    Request,
) {
    if p.trackers.contains_key(pid) {
        after_pass(p, pid, unmerged_on(state_of(p, pid), todo, released), false)
    } else {
        (p, JobView::Done, Request::Finished(Ok(())))
    }
}

/// The end of a job that refreshes: the tracker takes in the areas and
/// the samples that were read.
pub open spec fn refreshing(p: Pages, task: TaskInfo, maps: Seq<MapRange>, samples: Seq<Sample>) -> (
    Pages,
    JobView,
    Request,
) {
    if p.trackers.contains_key(task.pid) {
        let s = state_of(p, task.pid);
        (
            with_state(p, task.pid, refreshed(s, maps, samples)),
            JobView::Done,
            Request::Finished(refresh_result(s, maps, samples)),
        )
    } else {
        (p, JobView::Done, Request::Finished(Err(ErrorKind::InvariantViolation)))
    }
}

/// A step of a job that refreshes, once the areas of the process are
/// known: where an area is still without its sample and the sample that
/// came last fits its area, the sample of the next area is asked for; else
/// the job ends.
pub open spec fn sampling(p: Pages, task: TaskInfo, maps: Seq<MapRange>, samples: Seq<Sample>) -> (
    Pages,
    JobView,
    Request,
) {
    if samples.len() < maps.len() && (samples.len() == 0 || fits(
        maps[samples.len() - 1],
        samples.last(),
        p.page_size,
    )) {
        (
            p,
            JobView::Sampling { task, maps, samples },
            Request::Pagemap {
                pid: task.pid,
                start: maps[samples.len() as int].start,
                end: maps[samples.len() as int].end,
            },
        )
    } else {
        refreshing(p, task, maps, samples)
    }
}

/// What a step of a job does to the trackers and the index, how the job
/// goes on, and what it asks of the kernel.  A reply that does not answer what the
/// job had asked ends the job with `InvariantViolation`.
pub open spec fn handled(p: Pages, job: JobView, reply: Reply) -> (Pages, JobView, Request) {
    match (job, reply) {
        (JobView::Del(pid), Reply::Start) => (
            Pages { trackers: p.trackers.remove(pid), ..p },
            JobView::Done,
            Request::Finished(Ok(())),
        ),
        (JobView::Refresh(task), Reply::Start) => (
            if p.trackers.contains_key(task.pid) {
                p
            } else {
                Pages {
                    trackers: p.trackers.insert(task.pid, empty_tracker(task.pid, p.page_size)),
                    ..p
                }
            },
            JobView::Summary(task),
            Request::Smaps { pid: task.pid },
        ),
        (JobView::Summary(task), Reply::Smaps(Some(text))) => match smaps_ranges(
            text@,
            task.addr,
        ) {
            Some(maps) => sampling(p, task, maps, Seq::empty()),
            None => (p, JobView::Done, Request::Finished(Err(ErrorKind::PagemapMalformed))),
        },
        (JobView::Summary(task), Reply::Smaps(None)) => (
            p,
            JobView::Done,
            Request::Finished(Err(ErrorKind::KernelIoError)),
        ),
        (JobView::Sampling { task, maps, samples }, Reply::Pagemap(Some(entries))) => sampling(
            p,
            task,
            maps,
            samples.push(entries@),
        ),
        (JobView::Sampling { task, maps, samples }, Reply::Pagemap(None)) => refreshing(
            p,
            task,
            maps,
            samples,
        ),
        (JobView::Merge { pid, todo, verdicts }, Reply::Start) => merging(p, pid, todo, verdicts),
        (JobView::Merge { pid, todo, verdicts }, Reply::Merged(Ok(answer))) => merging(
            p,
            pid,
            todo,
            verdicts.push(answer),
        ),
        (JobView::Merge { .. }, Reply::Merged(Err(e))) => (
            p,
            JobView::Done,
            Request::Finished(Err(e)),
        ),
        (JobView::UnMerge { pid, todo }, Reply::Start) => unmerging(p, pid, todo, false),
        (JobView::UnMerge { pid, todo }, Reply::Unmerged(Ok(()))) => unmerging(p, pid, todo, true),
        (JobView::UnMerge { .. }, Reply::Unmerged(Err(e))) => (
            p,
            JobView::Done,
            Request::Finished(Err(e)),
        ),
        _ => (p, JobView::Done, Request::Finished(Err(ErrorKind::InvariantViolation))),
    }
}

/// Whether `job` is a job for the piece of work `task` that has not
/// begun.  A job that merges has the old pages of the process to take, a
/// job that unmerges its merged pages, each page once; in which order is
/// not said.
pub open spec fn prepared(p: Pages, task: HandleTask, job: JobView) -> bool {
    match task {
        HandleTask::Del(pid) => job == JobView::Del(pid),
        HandleTask::Refresh(info) => job == JobView::Refresh(info),
        HandleTask::Merge(pid) => {
            &&& job matches JobView::Merge { pid: of, todo, verdicts }
            &&& of == pid
            &&& verdicts.len() == 0
            &&& todo.no_duplicates()
            &&& todo.to_set() == if p.trackers.contains_key(pid) {
                p.trackers[pid].old_pages.dom()
            } else {
                Set::empty()
            }
        },
        HandleTask::UnMerge(pid) => {
            &&& job matches JobView::UnMerge { pid: of, todo }
            &&& of == pid
            &&& todo.no_duplicates()
            &&& todo.to_set() == if p.trackers.contains_key(pid) {
                p.trackers[pid].uksm_pages.dom()
            } else {
                Set::empty()
            }
        },
    }
}

/// The trackers of the registered processes and the merge index.
#[derive(Debug)]
pub struct TasksPages {
    pages_info: HashMap<u64, Info>,
    uksm: Uksm,
    page_size: u64,
}

impl View for TasksPages {
    type V = Pages;

    closed spec fn view(&self) -> Pages {
        Pages {
            trackers: Map::new(
                |pid: u64| self.pages_info@.contains_key(pid),
                |pid: u64| self.pages_info@[pid]@,
            ),
            uksm: self.uksm@,
            page_size: self.page_size,
        }
    }
}

impl Pages {
    /// Each tracker is well formed, is the tracker of the process it
    /// stands for and has the page size of the whole; no fingerprint of the
    /// index is without a class and no class is empty.
    pub open spec fn wf(self) -> bool {
        &&& self.page_size > 0
        &&& crate::uksm::no_empty(self.uksm)
        &&& forall|pid: u64| #[trigger]
            self.trackers.contains_key(pid) ==> {
                &&& self.trackers[pid].wf()
                &&& self.trackers[pid].pid == pid
                &&& self.trackers[pid].page_size == self.page_size
            }
    }
}

impl TasksPages {
    /// See `Pages::wf`.
    pub closed spec fn wf(&self) -> bool {
        &&& self@.wf()
        &&& self.uksm.wf()
        &&& forall|pid: u64| #[trigger]
            self.pages_info@.contains_key(pid) ==> self.pages_info@[pid].wf()
    }

    /// No tracker and an index that holds nothing.
    pub fn new(page_size: u64) -> (pages: Self)
        requires
            page_size > 0,
        ensures
            pages.wf(),
            pages@.wf(),
            pages@ == (Pages { trackers: Map::empty(), uksm: Map::empty(), page_size }),
    {
        let pages = Self { pages_info: HashMap::new(), uksm: Uksm::new(), page_size };
        assert(pages@ =~= (Pages { trackers: Map::empty(), uksm: Map::empty(), page_size }));
        pages
    }

    /// The size of a page.
    pub fn page_size(&self) -> (size: u64)
        ensures
            size == self@.page_size,
    {
        self.page_size
    }

    /// Whether the process has a tracker.
    pub fn has(&self, pid: u64) -> (r: bool)
        ensures
            r == self@.trackers.contains_key(pid),
    {
        self.pages_info.contains_key(&pid)
    }

    /// The tracker of a process.
    pub fn info(&self, pid: u64) -> (info: Option<&Info>)
        ensures
            match info {
                Some(i) => self@.trackers.contains_key(pid) && i@ == self@.trackers[pid],
                None => !self@.trackers.contains_key(pid),
            },
    {
        self.pages_info.get(&pid)
    }

    /// The merge index.
    pub fn uksm(&self) -> (uksm: &Uksm)
        ensures
            uksm@ == self@.uksm,
    {
        &self.uksm
    }

    /// Prepares a piece of work.  See `prepared`.
    pub fn job(&self, task: HandleTask) -> (job: Job)
        ensures
            prepared(self@, task, job@),
    {
        match task {
            HandleTask::Del(pid) => Job::Del(pid),
            HandleTask::Refresh(info) => Job::Refresh(info),
            HandleTask::Merge(pid) => {
                let pass = match self.pages_info.get(&pid) {
                    Some(info) => info.merge_pass(),
                    None => {
                        let pass = Pass { todo: Vec::new(), verdicts: Vec::new() };
                        assert(pass.todo@.to_set() =~= Set::<u64>::empty());
                        pass
                    },
                };
                Job::Merge { pid, pass }
            },
            HandleTask::UnMerge(pid) => {
                let pass = match self.pages_info.get(&pid) {
                    Some(info) => info.unmerge_pass(),
                    None => {
                        let pass = Pass { todo: Vec::new(), verdicts: Vec::new() };
                        assert(pass.todo@.to_set() =~= Set::<u64>::empty());
                        pass
                    },
                };
                Job::UnMerge { pid, pass }
            },
        }
    }

    /// A step of a pass over the pages of a process.
    fn pass_step(&mut self, pid: u64, pass: Pass, merging: bool, verdict: Option<bool>, released: bool) -> (r:
        (Job, Request))
        requires
            old(self).wf(),
        ensures
            final(self).wf(),
            (final(self)@, r.0@, r.1) == if merging {
                self::merging(
                    old(self)@,
                    pid,
                    pass.todo@,
                    match verdict {
                        Some(answer) => pass.verdicts@.push(answer),
                        None => pass.verdicts@,
                    },
                )
            } else {
                unmerging(old(self)@, pid, pass.todo@, released)
            },
    {
        let ghost before = self@;
        let mut info = match self.pages_info.remove(&pid) {
            Some(info) => info,
            None => {
                assert(self@ =~= before);
                return (Job::Done, Request::Finished(Ok(())));
            },
        };
        let mut pass = pass;
        let ghost s = state(info, self.uksm);
        assert(s == state_of(before, pid));
        let ask = if merging {
            proof {
                lemma_merged_on_frame(
                    s,
                    pass.todo@,
                    match verdict {
                        Some(answer) => pass.verdicts@.push(answer),
                        None => pass.verdicts@,
                    },
                );
            }
            info.merge(&mut self.uksm, &mut pass, verdict)
        } else {
            proof {
                lemma_unmerged_on_frame(s, pass.todo@, released);
            }
            info.unmerge(&mut self.uksm, &mut pass, released)
        };
        let ghost after = state(info, self.uksm);
        self.pages_info.insert(pid, info);
        assert(self@ =~= with_state(before, pid, after));
        match ask {
            Some((first, second)) => if merging {
                (Job::Merge { pid, pass }, Request::Merge { known: first, page: second })
            } else {
                (Job::UnMerge { pid, pass }, Request::Unmerge { page: second })
            },
            None => (Job::Done, Request::Finished(Ok(()))),
        }
    }

    /// The end of a job that refreshes.
    fn finish_refresh(
        &mut self,
        task: TaskInfo,
        maps: Vec<MapRange>,
        samples: Vec<Vec<Option<UKSMPagemapEntry>>>,
    ) -> (r: (Job, Request))
        requires
            old(self).wf(),
        ensures
            final(self).wf(),
            (final(self)@, r.0@, r.1) == refreshing(old(self)@, task, maps@, sample_views(samples)),
    {
        let ghost before = self@;
        let mut info = match self.pages_info.remove(&task.pid) {
            Some(info) => info,
            None => {
                assert(self@ =~= before);
                return (Job::Done, Request::Finished(Err(ErrorKind::InvariantViolation)));
            },
        };
        let ghost s = state(info, self.uksm);
        proof {
            lemma_refreshed_frame(s, maps@, sample_views(samples));
        }
        let result = info.refresh(&mut self.uksm, maps, &samples);
        let ghost after = state(info, self.uksm);
        self.pages_info.insert(task.pid, info);
        assert(self@ =~= with_state(before, task.pid, after));
        (Job::Done, Request::Finished(result))
    }

    /// A step of a job that refreshes, once the areas of the process are
    /// known.
    fn sample_next(
        &mut self,
        task: TaskInfo,
        maps: Vec<MapRange>,
        samples: Vec<Vec<Option<UKSMPagemapEntry>>>,
    ) -> (r: (Job, Request))
        requires
            old(self).wf(),
        ensures
            final(self).wf(),
            (final(self)@, r.0@, r.1) == sampling(old(self)@, task, maps@, sample_views(samples)),
    {
        let n = samples.len();
        let ghost views = sample_views(samples);
        if n < maps.len() {
            let fit = if n == 0 {
                true
            } else {
                assert(views.last() == samples@[n - 1]@);
                sample_fits(&maps[n - 1], samples[n - 1].len(), self.page_size)
            };
            if fit {
                let request = Request::Pagemap {
                    pid: task.pid,
                    start: maps[n].start,
                    end: maps[n].end,
                };
                return (Job::Sampling { task, maps, samples }, request);
            }
        }
        self.finish_refresh(task, maps, samples)
    }

    /// Goes on with a piece of work: takes what the kernel returned for
    /// the last request of the job and gives the job as it stands now and
    /// its next request.  The job is over when the request is
    /// `Request::Finished`.  See `handled`.
    pub fn handle_task(&mut self, job: Job, reply: Reply) -> (r: (Job, Request))
        requires
            old(self).wf(),
        ensures
            final(self).wf(),
            final(self)@.wf(),
            (final(self)@, r.0@, r.1) == handled(old(self)@, job@, reply),
    {
        let ghost before = self@;
        match job {
            Job::Del(pid) => match reply {
                Reply::Start => {
                    self.pages_info.remove(&pid);
                    assert(self@ =~= (Pages { trackers: before.trackers.remove(pid), ..before }));
                    (Job::Done, Request::Finished(Ok(())))
                },
                _ => (Job::Done, Request::Finished(Err(ErrorKind::InvariantViolation))),
            },
            Job::Refresh(task) => match reply {
                Reply::Start => {
                    if !self.pages_info.contains_key(&task.pid) {
                        self.pages_info.insert(task.pid, Info::new(task.pid, self.page_size));
                        assert(self@ =~= (Pages {
                            trackers: before.trackers.insert(
                                task.pid,
                                empty_tracker(task.pid, before.page_size),
                            ),
                            ..before
                        }));
                    }
                    (Job::Summary(task), Request::Smaps { pid: task.pid })
                },
                _ => (Job::Done, Request::Finished(Err(ErrorKind::InvariantViolation))),
            },
            Job::Summary(task) => match reply {
                Reply::Smaps(Some(text)) => match parse_task_smaps(text.as_slice(), &task) {
                    Ok(maps) => {
                        let samples: Vec<Vec<Option<UKSMPagemapEntry>>> = Vec::new();
                        assert(sample_views(samples) =~= Seq::<Sample>::empty());
                        self.sample_next(task, maps, samples)
                    },
                    Err(e) => (Job::Done, Request::Finished(Err(e))),
                },
                Reply::Smaps(None) => (
                    Job::Done,
                    Request::Finished(Err(ErrorKind::KernelIoError)),
                ),
                _ => (Job::Done, Request::Finished(Err(ErrorKind::InvariantViolation))),
            },
            Job::Sampling { task, maps, samples } => match reply {
                Reply::Pagemap(Some(entries)) => {
                    let mut samples = samples;
                    let ghost had = sample_views(samples);
                    samples.push(entries);
                    assert(sample_views(samples) =~= had.push(entries@));
                    self.sample_next(task, maps, samples)
                },
                Reply::Pagemap(None) => self.finish_refresh(task, maps, samples),
                _ => (Job::Done, Request::Finished(Err(ErrorKind::InvariantViolation))),
            },
            Job::Merge { pid, pass } => match reply {
                Reply::Start => self.pass_step(pid, pass, true, None, false),
                Reply::Merged(Ok(answer)) => self.pass_step(pid, pass, true, Some(answer), false),
                Reply::Merged(Err(e)) => (Job::Done, Request::Finished(Err(e))),
                _ => (Job::Done, Request::Finished(Err(ErrorKind::InvariantViolation))),
            },
            Job::UnMerge { pid, pass } => match reply {
                Reply::Start => self.pass_step(pid, pass, false, None, false),
                Reply::Unmerged(Ok(())) => self.pass_step(pid, pass, false, None, true),
                Reply::Unmerged(Err(e)) => (Job::Done, Request::Finished(Err(e))),
                _ => (Job::Done, Request::Finished(Err(ErrorKind::InvariantViolation))),
            },
            Job::Done => (Job::Done, Request::Finished(Err(ErrorKind::InvariantViolation))),
        }
    }
}

/// The four kinds of work, in the order in which they are taken up.
#[derive(Debug, Clone, Copy, PartialEq, Eq, Structural)]
pub enum AsyncWork {
    UnMerge,
    Del,
    Refresh,
    Merge,
}

/// What a worker has just seen.
#[derive(Debug, Clone, Copy, PartialEq, Eq)]
pub enum WorkEvent {
    /// Nothing: the worker begins.
    Start,
    /// How telling the kernel to flush its deferred page lists ended.
    Drained(Result<(), ErrorKind>),
    /// The piece of work that the worker was given is over.
    Handled,
}

/// What a worker is to do next.
#[derive(Debug, Clone, Copy, PartialEq, Eq)]
pub enum WorkStep {
    /// Tell the kernel to flush its deferred page lists.
    Drain,
    /// Carry out this piece of work.
    Handle(HandleTask),
    /// End, with this result.
    Stop(Result<(), ErrorKind>),
}

/// The registry and the queues as a value.
#[verifier::ext_equal]
pub struct Queues {
    /// The registered processes.
    pub map: Map<u64, TaskInfo>,
    /// The processes to look at again.  The last entry is taken first.
    pub refresh_target: Seq<TaskInfo>,
    /// The processes whose old pages are to be merged.
    pub merge_target: Seq<u64>,
    /// The processes whose merged pages are to be unmerged.
    pub unmerge_target: Seq<u64>,
    /// The processes whose trackers are to be dropped.
    pub del_target: Seq<u64>,
    /// The size of a page.
    pub page_size: u64,
}

/// The entries of a queue of processes but those of `pid`, in their order.
pub open spec fn other_pids(queue: Seq<u64>, pid: u64) -> Seq<u64>
    decreases queue.len(),
{
    if queue.len() == 0 {
        queue
    } else if queue.last() == pid {
        other_pids(queue.drop_last(), pid)
    } else {
        other_pids(queue.drop_last(), pid).push(queue.last())
    }
}

/// The entries of a queue of tasks but those of the process `pid`, in
/// their order.
pub open spec fn other_tasks(queue: Seq<TaskInfo>, pid: u64) -> Seq<TaskInfo>
    decreases queue.len(),
{
    if queue.len() == 0 {
        queue
    } else if queue.last().pid == pid {
        other_tasks(queue.drop_last(), pid)
    } else {
        other_tasks(queue.drop_last(), pid).push(queue.last())
    }
}

/// The window of a request.
pub open spec fn window_of(req: AddRequest) -> Option<(u64, u64)> {
    match req.addr {
        Some(addr) => Some((addr.start, addr.end)),
        None => None,
    }
}

/// Whether a request to register a process is accepted: the process can
/// be inspected, the bounds of its window, if it has one, are multiples of
/// the page size, and the process is not registered.
pub open spec fn admits(q: Queues, req: AddRequest, available: bool) -> bool {
    &&& available
    &&& match req.addr {
        Some(addr) => addr.start % q.page_size == 0 && addr.end % q.page_size == 0,
        None => true,
    }
    &&& !q.map.contains_key(req.pid)
}

/// The registry and the queues after a process has been registered: the
/// process is in the registry and at the end of the queue of those to look
/// at.
pub open spec fn registered(q: Queues, req: AddRequest) -> Queues {
    let task = TaskInfo { pid: req.pid, addr: window_of(req) };
    Queues {
        map: q.map.insert(req.pid, task),
        refresh_target: q.refresh_target.push(task),
        ..q
    }
}

/// The registry and the queues after a process has been taken out: the
/// process has left the registry and the queues of those to look at and to
/// merge, and stands once, at the end, in the queue of those to unmerge and
/// in the queue of those to drop.
pub open spec fn deleted(q: Queues, pid: u64) -> Queues {
    Queues {
        map: q.map.remove(pid),
        refresh_target: other_tasks(q.refresh_target, pid),
        merge_target: other_pids(q.merge_target, pid),
        unmerge_target: other_pids(q.unmerge_target, pid).push(pid),
        del_target: other_pids(q.del_target, pid).push(pid),
        ..q
    }
}

/// The kind of work that is taken up next: the first kind, in the order
/// of `AsyncWork`, whose queue is not empty.
pub open spec fn next_work(q: Queues) -> Option<AsyncWork> {
    if q.unmerge_target.len() > 0 {
        Some(AsyncWork::UnMerge)
    } else if q.del_target.len() > 0 {
        Some(AsyncWork::Del)
    } else if q.refresh_target.len() > 0 {
        Some(AsyncWork::Refresh)
    } else if q.merge_target.len() > 0 {
        Some(AsyncWork::Merge)
    } else {
        None
    }
}

/// The last entry of the queue of a kind of work, as a piece of work.
pub open spec fn last_task(q: Queues, work: AsyncWork) -> Option<HandleTask> {
    match work {
        AsyncWork::UnMerge => if q.unmerge_target.len() > 0 {
            Some(HandleTask::UnMerge(q.unmerge_target.last()))
        } else {
            None
        },
        AsyncWork::Del => if q.del_target.len() > 0 {
            Some(HandleTask::Del(q.del_target.last()))
        } else {
            None
        },
        AsyncWork::Refresh => if q.refresh_target.len() > 0 {
            Some(HandleTask::Refresh(q.refresh_target.last()))
        } else {
            None
        },
        AsyncWork::Merge => if q.merge_target.len() > 0 {
            Some(HandleTask::Merge(q.merge_target.last()))
        } else {
            None
        },
    }
}

/// The queues without the last entry of the queue of a kind of work.
pub open spec fn popped(q: Queues, work: AsyncWork) -> Queues {
    match work {
        AsyncWork::UnMerge => Queues { unmerge_target: q.unmerge_target.drop_last(), ..q },
        AsyncWork::Del => Queues { del_target: q.del_target.drop_last(), ..q },
        AsyncWork::Refresh => Queues { refresh_target: q.refresh_target.drop_last(), ..q },
        AsyncWork::Merge => Queues { merge_target: q.merge_target.drop_last(), ..q },
    }
}

/// What a worker of the kind `work` does next, and what that does to the
/// queues.
///
/// A worker that merges begins by telling the kernel to flush its deferred
/// page lists, and ends at once if that fails.  Apart from that a worker
/// takes the last entry of its queue, as long as there is one, and ends
/// well when there is none.
pub open spec fn worked(q: Queues, work: AsyncWork, event: WorkEvent) -> (Queues, WorkStep) {
    match event {
        WorkEvent::Start if work == AsyncWork::Merge => (q, WorkStep::Drain),
        WorkEvent::Drained(Err(e)) => (q, WorkStep::Stop(Err(e))),
        _ => match last_task(q, work) {
            Some(task) => (popped(q, work), WorkStep::Handle(task)),
            None => (q, WorkStep::Stop(Ok(()))),
        },
    }
}

/// Whether `after` is what queueing a look at every registered process
/// makes of `before`: the queue of the processes to look at holds what it
/// held and every registered process, each once, and nothing else has
/// changed.
pub open spec fn refreshed_all(before: Queues, after: Queues) -> bool {
    &&& after.refresh_target.no_duplicates()
    &&& after.refresh_target.to_set() == before.refresh_target.to_set().union(before.map.values())
    &&& after == (Queues { refresh_target: after.refresh_target, ..before })
}

/// Whether `after` is what queueing the merging of every registered
/// process makes of `before`: the queue of the processes to merge holds
/// what it held and every registered process, each once, and nothing else
/// has changed.
pub open spec fn merged_all(before: Queues, after: Queues) -> bool {
    &&& after.merge_target.no_duplicates()
    &&& after.merge_target.to_set() == before.merge_target.to_set().union(before.map.dom())
    &&& after == (Queues { merge_target: after.merge_target, ..before })
}

/// The registry of tracked processes and the queues of work on them.
#[derive(Debug)]
pub struct Tasks {
    map: HashMap<u64, TaskInfo>,
    refresh_target: Vec<TaskInfo>,
    merge_target: Vec<u64>,
    unmerge_target: Vec<u64>,
    del_target: Vec<u64>,
    page_size: u64,
}

impl View for Tasks {
    type V = Queues;

    closed spec fn view(&self) -> Queues {
        Queues {
            map: self.map@,
            refresh_target: self.refresh_target@,
            merge_target: self.merge_target@,
            unmerge_target: self.unmerge_target@,
            del_target: self.del_target@,
            page_size: self.page_size,
        }
    }
}

impl Tasks {
    /// An empty registry and empty queues.
    pub fn new(page_size: u64) -> (tasks: Self)
        requires
            page_size > 0,
        ensures
            tasks@ == (Queues {
                map: Map::empty(),
                refresh_target: Seq::empty(),
                merge_target: Seq::empty(),
                unmerge_target: Seq::empty(),
                del_target: Seq::empty(),
                page_size,
            }),
    {
        Self {
            map: HashMap::new(),
            refresh_target: Vec::new(),
            merge_target: Vec::new(),
            unmerge_target: Vec::new(),
            del_target: Vec::new(),
            page_size,
        }
    }

    /// Registers a process and queues a first look at it.  `available`
    /// says whether the process can be inspected.
    ///
    /// Fails, and changes nothing, where `admits` does not hold.
    pub fn add(&mut self, req: AddRequest, available: bool) -> (r: Result<(), ErrorKind>)
        requires
            old(self)@.page_size > 0,
        ensures
            r is Ok <==> admits(old(self)@, req, available),
            r matches Err(e) ==> e == ErrorKind::PreconditionFailed,
            final(self)@ == if r is Ok {
                registered(old(self)@, req)
            } else {
                old(self)@
            },
    {
        let mut addr: Option<(u64, u64)> = None;
        if let Some(window) = req.addr {
            addr = Some((window.start, window.end));
        }
        if !available {
            return Err(ErrorKind::PreconditionFailed);
        }
        if let Some((start, end)) = addr {
            if start % self.page_size != 0 || end % self.page_size != 0 {
                return Err(ErrorKind::PreconditionFailed);
            }
        }
        if self.map.contains_key(&req.pid) {
            return Err(ErrorKind::PreconditionFailed);
        }
        self.map.insert(req.pid, TaskInfo::new(req.pid, addr));
        self.refresh_target.push(TaskInfo::new(req.pid, addr));
        Ok(())
    }

    /// Takes a process out of the registry and queues the work that
    /// forgets it.
    ///
    /// Fails, and changes nothing, where the process is not registered.
    pub fn del(&mut self, req: DelRequest) -> (r: Result<(), ErrorKind>)
        ensures
            r is Ok <==> old(self)@.map.contains_key(req.pid),
            r matches Err(e) ==> e == ErrorKind::PreconditionFailed,
            final(self)@ == if r is Ok {
                deleted(old(self)@, req.pid)
            } else {
                old(self)@
            },
    {
        let ghost before = self@;
        if self.map.remove(&req.pid).is_none() {
            assert(self@ =~= before);
            return Err(ErrorKind::PreconditionFailed);
        }
        self.refresh_target = tasks_without(&self.refresh_target, req.pid);
        self.merge_target = pids_without(&self.merge_target, req.pid);
        self.unmerge_target = pids_without(&self.unmerge_target, req.pid);
        self.del_target = pids_without(&self.del_target, req.pid);
        self.unmerge_target.push(req.pid);
        self.del_target.push(req.pid);
        Ok(())
    }

    /// Queues a look at every registered process: the queue of the
    /// processes to look at then holds what it held and every registered
    /// process, each once.  In which order is not said.
    pub fn add_refresh_all(&mut self)
        ensures
            refreshed_all(old(self)@, final(self)@),
    {
        let ghost before = self@;
        let mut out: Vec<TaskInfo> = Vec::new();
        let mut i: usize = 0;
        while i < self.refresh_target.len()
            invariant
                i <= self.refresh_target@.len(),
                self@ == before,
                out@.no_duplicates(),
                forall|t: TaskInfo|
                    out@.contains(t) <==> before.refresh_target.take(i as int).contains(t),
            decreases self.refresh_target@.len() - i,
        {
            let task = self.refresh_target[i];
            proof {
                let queue = before.refresh_target;
                assert(queue.take(i + 1) =~= queue.take(i as int).push(task));
                assert forall|t: TaskInfo|
                    queue.take(i + 1).contains(t) <==> queue.take(i as int).contains(t) || t
                        == task by {
                    if queue.take(i as int).contains(t) {
                        let j = choose|j: int|
                            0 <= j < queue.take(i as int).len() && queue.take(i as int)[j] == t;
                        assert(queue.take(i + 1)[j] == t);
                    }
                    if t == task {
                        assert(queue.take(i + 1)[i as int] == t);
                    }
                }
            }
            push_new_task(&mut out, task);
            i += 1;
        }
        assert(before.refresh_target.take(i as int) =~= before.refresh_target);
        let keys = keys_of(&self.map);
        let mut k: usize = 0;
        while k < keys.len()
            invariant
                k <= keys@.len(),
                self@ == before,
                keys@.to_set() == before.map.dom(),
                out@.no_duplicates(),
                forall|t: TaskInfo|
                    out@.contains(t) <==> before.refresh_target.contains(t) || exists|j: int|
                        0 <= j < k && before.map[#[trigger] keys@[j]] == t,
            decreases keys@.len() - k,
        {
            assert(keys@.to_set().contains(keys@[k as int]));
            if let Some(task) = self.map.get(&keys[k]) {
                push_new_task(&mut out, *task);
            }
            k += 1;
        }
        proof {
            assert forall|t: TaskInfo|
                out@.to_set().contains(t) <==> before.refresh_target.to_set().union(
                    before.map.values(),
                ).contains(t) by {
                if before.map.contains_value(t) {
                    let pid = choose|pid: u64| before.map.contains_key(pid) && before.map[pid] == t;
                    assert(keys@.to_set().contains(pid));
                    let j = choose|j: int| 0 <= j < keys@.len() && keys@[j] == pid;
                    assert(before.map[keys@[j]] == t);
                }
                if exists|j: int| 0 <= j < k && before.map[#[trigger] keys@[j]] == t {
                    let j = choose|j: int| 0 <= j < k && before.map[#[trigger] keys@[j]] == t;
                    assert(keys@.to_set().contains(keys@[j]));
                    assert(before.map.contains_key(keys@[j]));
                }
            }
            assert(out@.to_set() =~= before.refresh_target.to_set().union(before.map.values()));
        }
        self.refresh_target = out;
    }

    /// Queues the merging of the old pages of every registered process:
    /// the queue of the processes to merge then holds what it held and every
    /// registered process, each once.  In which order is not said.
    pub fn add_merge_all(&mut self)
        ensures
            merged_all(old(self)@, final(self)@),
    {
        let ghost before = self@;
        let mut out: Vec<u64> = Vec::new();
        let mut i: usize = 0;
        while i < self.merge_target.len()
            invariant
                i <= self.merge_target@.len(),
                self@ == before,
                out@.no_duplicates(),
                out@.to_set() == before.merge_target.take(i as int).to_set(),
            decreases self.merge_target@.len() - i,
        {
            let pid = self.merge_target[i];
            proof {
                let queue = before.merge_target;
                assert(queue.take(i + 1) =~= queue.take(i as int).push(pid));
                queue.take(i as int).lemma_push_to_set_commute(pid);
            }
            push_new_pid(&mut out, pid);
            i += 1;
        }
        assert(before.merge_target.take(i as int) =~= before.merge_target);
        let keys = keys_of(&self.map);
        let mut k: usize = 0;
        while k < keys.len()
            invariant
                k <= keys@.len(),
                self@ == before,
                out@.no_duplicates(),
                out@.to_set() == before.merge_target.to_set().union(keys@.take(k as int).to_set()),
            decreases keys@.len() - k,
        {
            proof {
                assert(keys@.take(k + 1) =~= keys@.take(k as int).push(keys@[k as int]));
                keys@.take(k as int).lemma_push_to_set_commute(keys@[k as int]);
                assert(before.merge_target.to_set().union(keys@.take(k + 1).to_set())
                    =~= before.merge_target.to_set().union(keys@.take(k as int).to_set()).insert(
                    keys@[k as int],
                ));
            }
            push_new_pid(&mut out, keys[k]);
            k += 1;
        }
        assert(keys@.take(k as int) =~= keys@);
        self.merge_target = out;
    }

    /// The kind of work that is to be taken up next; `None` where all
    /// queues are empty.
    pub fn async_work(&self) -> (work: Option<AsyncWork>)
        ensures
            work == next_work(self@),
    {
        if self.unmerge_target.len() > 0 {
            Some(AsyncWork::UnMerge)
        } else if self.del_target.len() > 0 {
            Some(AsyncWork::Del)
        } else if self.refresh_target.len() > 0 {
            Some(AsyncWork::Refresh)
        } else if self.merge_target.len() > 0 {
            Some(AsyncWork::Merge)
        } else {
            None
        }
    }

    /// Decides what a worker of the kind `work` does next, given what it
    /// has just seen.  See `worked`.
    pub fn async_work_thread(&mut self, work: AsyncWork, event: WorkEvent) -> (step: WorkStep)
        ensures
            (final(self)@, step) == worked(old(self)@, work, event),
    {
        let ghost before = self@;
        match event {
            WorkEvent::Start => {
                if let AsyncWork::Merge = work {
                    return WorkStep::Drain;
                }
            },
            WorkEvent::Drained(result) => {
                if let Err(e) = result {
                    return WorkStep::Stop(Err(e));
                }
            },
            WorkEvent::Handled => {},
        }
        let task = match work {
            AsyncWork::UnMerge => match self.unmerge_target.pop() {
                Some(pid) => Some(HandleTask::UnMerge(pid)),
                None => None,
            },
            AsyncWork::Del => match self.del_target.pop() {
                Some(pid) => Some(HandleTask::Del(pid)),
                None => None,
            },
            AsyncWork::Refresh => match self.refresh_target.pop() {
                Some(info) => Some(HandleTask::Refresh(info)),
                None => None,
            },
            AsyncWork::Merge => match self.merge_target.pop() {
                Some(pid) => Some(HandleTask::Merge(pid)),
                None => None,
            },
        };
        match task {
            Some(t) => {
                assert(self@ =~= popped(before, work));
                WorkStep::Handle(t)
            },
            None => {
                assert(self@ =~= before);
                WorkStep::Stop(Ok(()))
            },
        }
    }

    /// Whether a process is registered.
    pub fn is_registered(&self, pid: u64) -> (r: bool)
        ensures
            r == self@.map.contains_key(pid),
    {
        self.map.contains_key(&pid)
    }

    /// The queue of the processes to look at again.
    pub fn refresh_target(&self) -> (queue: &Vec<TaskInfo>)
        ensures
            queue@ == self@.refresh_target,
    {
        &self.refresh_target
    }

    /// The queue of the processes whose old pages are to be merged.
    pub fn merge_target(&self) -> (queue: &Vec<u64>)
        ensures
            queue@ == self@.merge_target,
    {
        &self.merge_target
    }

    /// The queue of the processes whose merged pages are to be unmerged.
    pub fn unmerge_target(&self) -> (queue: &Vec<u64>)
        ensures
            queue@ == self@.unmerge_target,
    {
        &self.unmerge_target
    }

    /// The queue of the processes whose trackers are to be dropped.
    pub fn del_target(&self) -> (queue: &Vec<u64>)
        ensures
            queue@ == self@.del_target,
    {
        &self.del_target
    }
}

/// The entries of a queue of processes but those of `pid`.
pub fn pids_without(queue: &Vec<u64>, pid: u64) -> (rest: Vec<u64>)
    ensures
        rest@ == other_pids(queue@, pid),
{
    let mut rest: Vec<u64> = Vec::new();
    let mut i: usize = 0;
    while i < queue.len()
        invariant
            i <= queue@.len(),
            rest@ == other_pids(queue@.take(i as int), pid),
        decreases queue@.len() - i,
    {
        assert(queue@.take(i + 1).drop_last() =~= queue@.take(i as int));
        if queue[i] != pid {
            rest.push(queue[i]);
        }
        i += 1;
    }
    assert(queue@.take(i as int) =~= queue@);
    rest
}

/// The entries of a queue of tasks but those of the process `pid`.
pub fn tasks_without(queue: &Vec<TaskInfo>, pid: u64) -> (rest: Vec<TaskInfo>)
    ensures
        rest@ == other_tasks(queue@, pid),
{
    let mut rest: Vec<TaskInfo> = Vec::new();
    let mut i: usize = 0;
    while i < queue.len()
        invariant
            i <= queue@.len(),
            rest@ == other_tasks(queue@.take(i as int), pid),
        decreases queue@.len() - i,
    {
        assert(queue@.take(i + 1).drop_last() =~= queue@.take(i as int));
        if queue[i].pid != pid {
            rest.push(queue[i]);
        }
        i += 1;
    }
    assert(queue@.take(i as int) =~= queue@);
    rest
}

/// Appends a process to a queue that does not hold it.
pub fn push_new_pid(queue: &mut Vec<u64>, pid: u64)
    ensures
        final(queue)@ == if old(queue)@.contains(pid) {
            old(queue)@
        } else {
            old(queue)@.push(pid)
        },
        final(queue)@.to_set() == old(queue)@.to_set().insert(pid),
        old(queue)@.no_duplicates() ==> final(queue)@.no_duplicates(),
{
    let mut i: usize = 0;
    while i < queue.len()
        invariant
            i <= queue@.len(),
            queue@ == old(queue)@,
            forall|j: int| 0 <= j < i ==> queue@[j] != pid,
        decreases queue@.len() - i,
    {
        if queue[i] == pid {
            assert(queue@.to_set() =~= queue@.to_set().insert(pid));
            return ;
        }
        i += 1;
    }
    proof {
        old(queue)@.lemma_push_to_set_commute(pid);
    }
    queue.push(pid);
}

/// Appends a task to a queue that does not hold it.
pub fn push_new_task(queue: &mut Vec<TaskInfo>, task: TaskInfo)
    ensures
        final(queue)@ == if old(queue)@.contains(task) {
            old(queue)@
        } else {
            old(queue)@.push(task)
        },
        forall|t: TaskInfo| final(queue)@.contains(t) <==> old(queue)@.contains(t) || t == task,
        old(queue)@.no_duplicates() ==> final(queue)@.no_duplicates(),
{
    let mut i: usize = 0;
    while i < queue.len()
        invariant
            i <= queue@.len(),
            queue@ == old(queue)@,
            forall|j: int| 0 <= j < i ==> queue@[j] != task,
        decreases queue@.len() - i,
    {
        if queue[i].same_as(&task) {
            return ;
        }
        i += 1;
    }
    queue.push(task);
    proof {
        let had = old(queue)@;
        assert forall|t: TaskInfo| queue@.contains(t) <==> had.contains(t) || t == task by {
            if had.contains(t) {
                let j = choose|j: int| 0 <= j < had.len() && had[j] == t;
                assert(queue@[j] == t);
            }
            if t == task {
                assert(queue@[had.len() as int] == t);
            }
        }
    }
}

} // verus!
