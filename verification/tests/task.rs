use std::collections::BTreeMap;
use uksmd::error::ErrorKind;
use uksmd::page::{Bucket, InfoStatus};
use uksmd::protocols::{AddRequest, Addr, DelRequest};
use uksmd::task::{
    pids_without, push_new_pid, push_new_task, tasks_without, AsyncWork, HandleTask, Job, Reply,
    Request, TaskInfo, Tasks, TasksPages, WorkEvent, WorkStep,
};
use uksmd::uksm::{PidAddr, UKSMPagemapEntry};

const P: u64 = 0x1000;
const A: u32 = 0xa;
const B: u32 = 0xb;

/// What stands in for the kernel: the pages of each process, and what the
/// kernel says of pairs of pages.
struct Kernel {
    pages: BTreeMap<u64, BTreeMap<u64, (u32, bool)>>,
    differ: Vec<(PidAddr, PidAddr)>,
    merge_fails: bool,
    unmerge_fails: bool,
    drain_fails: bool,
    log: Vec<Request>,
    drained: usize,
}

impl Kernel {
    fn new() -> Self {
        Kernel {
            pages: BTreeMap::new(),
            differ: Vec::new(),
            merge_fails: false,
            unmerge_fails: false,
            drain_fails: false,
            log: Vec::new(),
            drained: 0,
        }
    }

    fn set(&mut self, pid: u64, addr: u64, crc: u32) {
        self.pages.entry(pid).or_default().insert(addr, (crc, false));
    }

    fn smaps(&self, pid: u64) -> Option<Vec<u8>> {
        let pages = self.pages.get(&pid)?;
        let mut text = String::new();
        for addr in pages.keys() {
            text += &format!(
                "{:x}-{:x} rw-p 00000000 00:00 0 \nAnonymous: 4 kB\n",
                addr,
                addr + P
            );
        }
        Some(text.into_bytes())
    }

    fn answer(&mut self, request: Request) -> Reply {
        self.log.push(request);
        match request {
            Request::Finished(_) => unreachable!(),
            Request::Smaps { pid } => Reply::Smaps(self.smaps(pid)),
            Request::Pagemap { pid, start, end } => Reply::Pagemap(self.pages.get(&pid).map(|pages| {
                (start / P..end / P)
                    .map(|i| {
                        pages.get(&(i * P)).map(|(crc, is_ksm)| UKSMPagemapEntry {
                            pfn: i,
                            crc: *crc,
                            is_thp: false,
                            is_ksm: *is_ksm,
                        })
                    })
                    .collect()
            })),
            Request::Merge { known, page } => {
                if self.merge_fails {
                    return Reply::Merged(Err(ErrorKind::KernelIoError));
                }
                let same = !self.differ.contains(&(known, page));
                if same {
                    for one in [known, page] {
                        self.pages.get_mut(&one.pid).unwrap().get_mut(&one.addr).unwrap().1 = true;
                    }
                }
                Reply::Merged(Ok(same))
            }
            Request::Unmerge { page } => {
                if self.unmerge_fails {
                    return Reply::Unmerged(Err(ErrorKind::KernelIoError));
                }
                self.pages.get_mut(&page.pid).unwrap().get_mut(&page.addr).unwrap().1 = false;
                Reply::Unmerged(Ok(()))
            }
        }
    }
}

/// Carries a piece of work out.
fn run(pages: &mut TasksPages, kernel: &mut Kernel, task: HandleTask) -> Result<(), ErrorKind> {
    let mut job = pages.job(task);
    let mut reply = Reply::Start;
    loop {
        let (next, request) = pages.handle_task(job, reply);
        if let Request::Finished(result) = request {
            assert!(matches!(next, Job::Done));
            return result;
        }
        job = next;
        reply = kernel.answer(request);
    }
}

/// Runs workers until no work is left.  Returns the pieces of work in the
/// order in which they were carried out.
fn drain(tasks: &mut Tasks, pages: &mut TasksPages, kernel: &mut Kernel) -> Vec<HandleTask> {
    let mut done = Vec::new();
    let mut rounds = 0;
    while let Some(work) = tasks.async_work() {
        rounds += 1;
        assert!(rounds < 100);
        let mut event = WorkEvent::Start;
        loop {
            match tasks.async_work_thread(work, event) {
                WorkStep::Drain => {
                    kernel.drained += 1;
                    event = WorkEvent::Drained(if kernel.drain_fails {
                        Err(ErrorKind::KernelIoError)
                    } else {
                        Ok(())
                    });
                }
                WorkStep::Handle(task) => {
                    let _ = run(pages, kernel, task);
                    done.push(task);
                    event = WorkEvent::Handled;
                }
                WorkStep::Stop(result) => {
                    if result.is_err() {
                        return done;
                    }
                    break;
                }
            }
        }
    }
    done
}

fn add(pid: u64) -> AddRequest {
    AddRequest { pid, addr: None }
}

fn page(pid: u64, addr: u64) -> PidAddr {
    PidAddr { pid, addr }
}

fn at(pages: &TasksPages, pid: u64, addr: u64) -> Option<(Bucket, u32)> {
    pages.info(pid)?.lookup(addr).map(|(bucket, entry)| (bucket, entry.crc))
}

/// Two processes, each with the page 0x1000 old with the fingerprint A.
fn two_old_pages() -> (Tasks, TasksPages, Kernel) {
    let mut tasks = Tasks::new(P);
    let mut pages = TasksPages::new(P);
    let mut kernel = Kernel::new();
    kernel.set(100, 0x1000, A);
    kernel.set(200, 0x1000, A);
    assert_eq!(tasks.add(add(100), true), Ok(()));
    assert_eq!(tasks.add(add(200), true), Ok(()));
    drain(&mut tasks, &mut pages, &mut kernel);
    tasks.add_refresh_all();
    drain(&mut tasks, &mut pages, &mut kernel);
    assert_eq!(at(&pages, 100, 0x1000), Some((Bucket::Old, A)));
    assert_eq!(at(&pages, 200, 0x1000), Some((Bucket::Old, A)));
    (tasks, pages, kernel)
}

#[test]
fn merge_across_two_processes_by_the_worker() {
    let (_, mut pages, mut kernel) = two_old_pages();
    assert_eq!(run(&mut pages, &mut kernel, HandleTask::Merge(100)), Ok(()));
    assert_eq!(run(&mut pages, &mut kernel, HandleTask::Merge(200)), Ok(()));
    assert_eq!(at(&pages, 100, 0x1000), Some((Bucket::Merged, A)));
    assert_eq!(at(&pages, 200, 0x1000), Some((Bucket::Merged, A)));
    assert_eq!(pages.uksm().classes(A), vec![vec![page(100, 0x1000), page(200, 0x1000)]]);
    assert_eq!(
        kernel.log.last(),
        Some(&Request::Merge { known: page(100, 0x1000), page: page(200, 0x1000) })
    );
}

#[test]
fn merge_rejected_by_the_kernel() {
    let (_, mut pages, mut kernel) = two_old_pages();
    kernel.differ.push((page(100, 0x1000), page(200, 0x1000)));
    assert_eq!(run(&mut pages, &mut kernel, HandleTask::Merge(100)), Ok(()));
    assert_eq!(run(&mut pages, &mut kernel, HandleTask::Merge(200)), Ok(()));
    assert_eq!(pages.uksm().classes(A), vec![vec![page(100, 0x1000)], vec![page(200, 0x1000)]]);
    assert_eq!(at(&pages, 100, 0x1000), Some((Bucket::Merged, A)));
    assert_eq!(at(&pages, 200, 0x1000), Some((Bucket::Merged, A)));
}

#[test]
fn silent_divergence_on_re_merge() {
    let mut tasks = Tasks::new(P);
    let mut pages = TasksPages::new(P);
    let mut kernel = Kernel::new();
    kernel.set(100, 0x1000, A);
    tasks.add(add(100), true).unwrap();
    drain(&mut tasks, &mut pages, &mut kernel);
    tasks.add_refresh_all();
    drain(&mut tasks, &mut pages, &mut kernel);
    assert_eq!(run(&mut pages, &mut kernel, HandleTask::Merge(100)), Ok(()));
    assert_eq!(pages.uksm().classes(A), vec![vec![page(100, 0x1000)]]);
    // The second process comes in, and its page becomes old.
    kernel.set(200, 0x1000, A);
    tasks.add(add(200), true).unwrap();
    for _ in 0..2 {
        assert_eq!(
            run(&mut pages, &mut kernel, HandleTask::Refresh(TaskInfo::new(200, None))),
            Ok(())
        );
    }
    assert_eq!(at(&pages, 200, 0x1000), Some((Bucket::Old, A)));
    // The page of the first process has changed without the tracker knowing.
    kernel.differ.push((page(100, 0x1000), page(200, 0x1000)));
    assert_eq!(run(&mut pages, &mut kernel, HandleTask::Merge(200)), Ok(()));
    assert_eq!(pages.uksm().classes(A), vec![vec![page(100, 0x1000)], vec![page(200, 0x1000)]]);
    assert_eq!(at(&pages, 100, 0x1000), Some((Bucket::Merged, A)));
    assert_eq!(at(&pages, 200, 0x1000), Some((Bucket::Merged, A)));
}

#[test]
fn delete_during_merged_state() {
    let (mut tasks, mut pages, mut kernel) = two_old_pages();
    tasks.add_merge_all();
    drain(&mut tasks, &mut pages, &mut kernel);
    let mut class = pages.uksm().classes(A);
    assert_eq!(class.len(), 1);
    class[0].sort_by_key(|page| page.pid);
    assert_eq!(class, vec![vec![page(100, 0x1000), page(200, 0x1000)]]);
    assert_eq!(tasks.del(DelRequest { pid: 100 }), Ok(()));
    let done = drain(&mut tasks, &mut pages, &mut kernel);
    assert_eq!(done, vec![HandleTask::UnMerge(100), HandleTask::Del(100)]);
    assert_eq!(pages.uksm().classes(A), vec![vec![page(200, 0x1000)]]);
    assert!(!pages.has(100));
    assert!(pages.has(200));
    assert!(!tasks.is_registered(100));
    assert!(tasks.refresh_target().iter().all(|task| task.pid != 100));
    for queue in [tasks.merge_target(), tasks.unmerge_target(), tasks.del_target()] {
        assert!(!queue.contains(&100));
    }
}

#[test]
fn after_the_work_every_tracker_is_registered() {
    let (mut tasks, mut pages, mut kernel) = two_old_pages();
    kernel.set(300, 0x5000, B);
    tasks.add(add(300), true).unwrap();
    tasks.add_merge_all();
    tasks.del(DelRequest { pid: 200 }).unwrap();
    tasks.add_refresh_all();
    tasks.del(DelRequest { pid: 300 }).unwrap();
    drain(&mut tasks, &mut pages, &mut kernel);
    assert_eq!(tasks.async_work(), None);
    for pid in [100, 200, 300] {
        assert!(!pages.has(pid) || tasks.is_registered(pid));
    }
    assert!(pages.has(100));
    assert_eq!(at(&pages, 100, 0x1000), Some((Bucket::Merged, A)));
    assert_eq!(pages.uksm().classes(A), vec![vec![page(100, 0x1000)]]);
    assert_eq!(pages.uksm().len(), 1);
}

#[test]
fn merge_of_a_process_that_was_deleted_does_nothing() {
    let (mut tasks, mut pages, mut kernel) = two_old_pages();
    tasks.del(DelRequest { pid: 100 }).unwrap();
    drain(&mut tasks, &mut pages, &mut kernel);
    kernel.log.clear();
    assert_eq!(run(&mut pages, &mut kernel, HandleTask::Merge(100)), Ok(()));
    assert_eq!(run(&mut pages, &mut kernel, HandleTask::UnMerge(100)), Ok(()));
    assert_eq!(kernel.log, vec![]);
    assert!(!pages.has(100));
    assert_eq!(pages.uksm().len(), 0);
}

#[test]
fn work_is_taken_up_by_priority() {
    let mut tasks = Tasks::new(P);
    assert_eq!(tasks.async_work(), None);
    tasks.add(add(100), true).unwrap();
    assert_eq!(tasks.async_work(), Some(AsyncWork::Refresh));
    tasks.add_merge_all();
    assert_eq!(tasks.async_work(), Some(AsyncWork::Refresh));
    assert_eq!(
        tasks.async_work_thread(AsyncWork::Refresh, WorkEvent::Start),
        WorkStep::Handle(HandleTask::Refresh(TaskInfo::new(100, None)))
    );
    assert_eq!(tasks.async_work_thread(AsyncWork::Refresh, WorkEvent::Handled), WorkStep::Stop(Ok(())));
    assert_eq!(tasks.async_work(), Some(AsyncWork::Merge));
    tasks.add(add(200), true).unwrap();
    tasks.del(DelRequest { pid: 200 }).unwrap();
    assert_eq!(tasks.async_work(), Some(AsyncWork::UnMerge));
    assert_eq!(
        tasks.async_work_thread(AsyncWork::UnMerge, WorkEvent::Start),
        WorkStep::Handle(HandleTask::UnMerge(200))
    );
    assert_eq!(tasks.async_work(), Some(AsyncWork::Del));
    assert_eq!(
        tasks.async_work_thread(AsyncWork::Del, WorkEvent::Start),
        WorkStep::Handle(HandleTask::Del(200))
    );
    assert_eq!(tasks.async_work(), Some(AsyncWork::Merge));
}

#[test]
fn a_worker_that_merges_drains_first() {
    let mut tasks = Tasks::new(P);
    tasks.add(add(100), true).unwrap();
    tasks.add_merge_all();
    assert_eq!(tasks.async_work_thread(AsyncWork::Merge, WorkEvent::Start), WorkStep::Drain);
    assert_eq!(tasks.merge_target(), &vec![100]);
    assert_eq!(
        tasks.async_work_thread(AsyncWork::Merge, WorkEvent::Drained(Err(ErrorKind::KernelIoError))),
        WorkStep::Stop(Err(ErrorKind::KernelIoError))
    );
    assert_eq!(tasks.merge_target(), &vec![100]);
    assert_eq!(
        tasks.async_work_thread(AsyncWork::Merge, WorkEvent::Drained(Ok(()))),
        WorkStep::Handle(HandleTask::Merge(100))
    );
    assert_eq!(tasks.async_work_thread(AsyncWork::Merge, WorkEvent::Handled), WorkStep::Stop(Ok(())));
}

#[test]
fn the_worker_drains_once_for_each_turn_of_merging() {
    let (mut tasks, mut pages, mut kernel) = two_old_pages();
    assert_eq!(kernel.drained, 0);
    tasks.add_merge_all();
    let done = drain(&mut tasks, &mut pages, &mut kernel);
    assert_eq!(kernel.drained, 1);
    assert_eq!(done.len(), 2);
    kernel.drain_fails = true;
    tasks.add_merge_all();
    assert_eq!(drain(&mut tasks, &mut pages, &mut kernel), vec![]);
    assert_eq!(tasks.merge_target().len(), 2);
}

#[test]
fn add_checks_the_request() {
    let mut tasks = Tasks::new(P);
    assert_eq!(tasks.add(add(100), false), Err(ErrorKind::PreconditionFailed));
    let window = |start, end| AddRequest { pid: 100, addr: Some(Addr { start, end }) };
    assert_eq!(tasks.add(window(0x1800, 0x3000), true), Err(ErrorKind::PreconditionFailed));
    assert_eq!(tasks.add(window(0x1000, 0x3001), true), Err(ErrorKind::PreconditionFailed));
    assert!(!tasks.is_registered(100));
    assert_eq!(tasks.refresh_target(), &vec![]);
    assert_eq!(tasks.add(window(0x1000, 0x3000), true), Ok(()));
    assert!(tasks.is_registered(100));
    assert_eq!(tasks.refresh_target(), &vec![TaskInfo::new(100, Some((0x1000, 0x3000)))]);
    assert_eq!(tasks.add(add(100), true), Err(ErrorKind::PreconditionFailed));
    assert_eq!(tasks.refresh_target().len(), 1);
}

#[test]
fn del_purges_the_queues() {
    let mut tasks = Tasks::new(P);
    assert_eq!(tasks.del(DelRequest { pid: 100 }), Err(ErrorKind::PreconditionFailed));
    for pid in [100, 200, 300] {
        tasks.add(add(pid), true).unwrap();
    }
    tasks.add_merge_all();
    assert_eq!(tasks.del(DelRequest { pid: 200 }), Ok(()));
    assert_eq!(
        tasks.refresh_target(),
        &vec![TaskInfo::new(100, None), TaskInfo::new(300, None)]
    );
    let mut merge = tasks.merge_target().clone();
    merge.sort();
    assert_eq!(merge, vec![100, 300]);
    assert_eq!(tasks.unmerge_target(), &vec![200]);
    assert_eq!(tasks.del_target(), &vec![200]);
    assert_eq!(tasks.del(DelRequest { pid: 200 }), Err(ErrorKind::PreconditionFailed));
    // Registered again and deleted again: still one entry each, at the end.
    tasks.del(DelRequest { pid: 100 }).unwrap();
    tasks.add(add(200), true).unwrap();
    tasks.del(DelRequest { pid: 200 }).unwrap();
    assert_eq!(tasks.unmerge_target(), &vec![100, 200]);
    assert_eq!(tasks.del_target(), &vec![100, 200]);
    assert_eq!(tasks.refresh_target(), &vec![TaskInfo::new(300, None)]);
}

#[test]
fn queueing_all_adds_each_process_once() {
    let mut tasks = Tasks::new(P);
    for pid in [100, 200, 300] {
        tasks.add(add(pid), true).unwrap();
    }
    tasks.add_refresh_all();
    tasks.add_refresh_all();
    let mut refresh: Vec<u64> = tasks.refresh_target().iter().map(|task| task.pid).collect();
    refresh.sort();
    assert_eq!(refresh, vec![100, 200, 300]);
    tasks.add_merge_all();
    tasks.add_merge_all();
    let mut merge = tasks.merge_target().clone();
    merge.sort();
    assert_eq!(merge, vec![100, 200, 300]);
    assert_eq!(tasks.unmerge_target(), &vec![]);
}

#[test]
fn a_window_restricts_the_tracker() {
    let mut tasks = Tasks::new(P);
    let mut pages = TasksPages::new(P);
    let mut kernel = Kernel::new();
    for addr in [0x1000, 0x2000, 0x5000] {
        kernel.set(100, addr, A);
    }
    tasks.add(AddRequest { pid: 100, addr: Some(Addr { start: 0x2000, end: 0x5000 }) }, true).unwrap();
    drain(&mut tasks, &mut pages, &mut kernel);
    assert_eq!(at(&pages, 100, 0x1000), None);
    assert_eq!(at(&pages, 100, 0x2000), Some((Bucket::New, A)));
    assert_eq!(at(&pages, 100, 0x5000), None);
    assert_eq!(
        kernel.log,
        vec![Request::Smaps { pid: 100 }, Request::Pagemap { pid: 100, start: 0x2000, end: 0x3000 }]
    );
}

#[test]
fn a_refresh_asks_for_the_summary_and_each_area() {
    let mut pages = TasksPages::new(P);
    let task = TaskInfo::new(100, None);
    let (job, request) = pages.handle_task(pages.job(HandleTask::Refresh(task)), Reply::Start);
    assert_eq!(request, Request::Smaps { pid: 100 });
    assert!(pages.has(100));
    let text = "1000-3000 rw-p\nAnonymous: 8 kB\n8000-9000 rw-p\nAnonymous: 4 kB\n";
    let (job, request) = pages.handle_task(job, Reply::Smaps(Some(text.as_bytes().to_vec())));
    assert_eq!(request, Request::Pagemap { pid: 100, start: 0x1000, end: 0x3000 });
    let entry = |crc| Some(UKSMPagemapEntry { pfn: 0, crc, is_thp: false, is_ksm: false });
    let (job, request) = pages.handle_task(job, Reply::Pagemap(Some(vec![entry(A), None])));
    assert_eq!(request, Request::Pagemap { pid: 100, start: 0x8000, end: 0x9000 });
    assert_eq!(pages.info(100).unwrap().get_status(), InfoStatus::default());
    let (job, request) = pages.handle_task(job, Reply::Pagemap(Some(vec![entry(B)])));
    assert_eq!(request, Request::Finished(Ok(())));
    assert!(matches!(job, Job::Done));
    assert_eq!(at(&pages, 100, 0x1000), Some((Bucket::New, A)));
    assert_eq!(at(&pages, 100, 0x2000), None);
    assert_eq!(at(&pages, 100, 0x8000), Some((Bucket::New, B)));
}

#[test]
fn a_refresh_ends_when_the_kernel_fails() {
    let mut pages = TasksPages::new(P);
    let mut kernel = Kernel::new();
    let task = HandleTask::Refresh(TaskInfo::new(100, None));
    // No such process: the summary cannot be read.
    assert_eq!(run(&mut pages, &mut kernel, task), Err(ErrorKind::KernelIoError));
    assert!(pages.has(100));
    // A bound that does not fit.
    let (job, _) = pages.handle_task(pages.job(task), Reply::Start);
    let text = "1000-10000000000000000 rw-p\nAnonymous: 8 kB\n";
    let (_, request) = pages.handle_task(job, Reply::Smaps(Some(text.as_bytes().to_vec())));
    assert_eq!(request, Request::Finished(Err(ErrorKind::PagemapMalformed)));
    // The page map of the second area cannot be read.
    let (job, _) = pages.handle_task(pages.job(task), Reply::Start);
    let text = "1000-2000 rw-p\nAnonymous: 4 kB\n8000-9000 rw-p\nAnonymous: 4 kB\n";
    let (job, _) = pages.handle_task(job, Reply::Smaps(Some(text.as_bytes().to_vec())));
    let entry = Some(UKSMPagemapEntry { pfn: 0, crc: A, is_thp: false, is_ksm: false });
    let (job, _) = pages.handle_task(job, Reply::Pagemap(Some(vec![entry])));
    let (_, request) = pages.handle_task(job, Reply::Pagemap(None));
    assert_eq!(request, Request::Finished(Err(ErrorKind::KernelIoError)));
    assert_eq!(at(&pages, 100, 0x1000), Some((Bucket::New, A)));
    // A sample of the wrong length.
    let (job, _) = pages.handle_task(pages.job(task), Reply::Start);
    let (job, _) = pages.handle_task(job, Reply::Smaps(Some(text.as_bytes().to_vec())));
    let (job, request) = pages.handle_task(job, Reply::Pagemap(Some(vec![entry, entry])));
    assert_eq!(request, Request::Finished(Err(ErrorKind::PagemapMalformed)));
    assert!(matches!(job, Job::Done));
}

#[test]
fn a_pass_ends_when_the_kernel_fails() {
    let (_, mut pages, mut kernel) = two_old_pages();
    run(&mut pages, &mut kernel, HandleTask::Merge(100)).unwrap();
    kernel.merge_fails = true;
    assert_eq!(run(&mut pages, &mut kernel, HandleTask::Merge(200)), Err(ErrorKind::KernelIoError));
    assert_eq!(at(&pages, 200, 0x1000), Some((Bucket::Old, A)));
    assert_eq!(pages.uksm().classes(A), vec![vec![page(100, 0x1000)]]);
    kernel.unmerge_fails = true;
    assert_eq!(run(&mut pages, &mut kernel, HandleTask::UnMerge(100)), Err(ErrorKind::KernelIoError));
    assert_eq!(at(&pages, 100, 0x1000), Some((Bucket::Merged, A)));
    assert_eq!(pages.uksm().classes(A), vec![vec![page(100, 0x1000)]]);
}

#[test]
fn a_reply_that_was_not_asked_for_ends_the_job() {
    let mut pages = TasksPages::new(P);
    let violated = Request::Finished(Err(ErrorKind::InvariantViolation));
    let (job, request) = pages.handle_task(Job::Del(100), Reply::Smaps(None));
    assert_eq!(request, violated);
    assert!(matches!(job, Job::Done));
    let task = TaskInfo::new(100, None);
    assert_eq!(pages.handle_task(Job::Refresh(task), Reply::Merged(Ok(true))).1, violated);
    assert_eq!(pages.handle_task(Job::Summary(task), Reply::Start).1, violated);
    assert_eq!(pages.handle_task(Job::Done, Reply::Start).1, violated);
    assert!(!pages.has(100));
    assert_eq!(pages.page_size(), P);
}

#[test]
fn queues_are_kept_free_of_doubles() {
    let mut queue = vec![1, 2, 3, 2];
    push_new_pid(&mut queue, 3);
    assert_eq!(queue, vec![1, 2, 3, 2]);
    push_new_pid(&mut queue, 4);
    assert_eq!(queue, vec![1, 2, 3, 2, 4]);
    assert_eq!(pids_without(&queue, 2), vec![1, 3, 4]);
    assert_eq!(pids_without(&queue, 9), queue);
    let a = TaskInfo::new(1, None);
    let b = TaskInfo::new(1, Some((0, P)));
    assert!(a.same_as(&a));
    assert!(!a.same_as(&b));
    assert!(!b.same_as(&TaskInfo::new(1, Some((0, 2 * P)))));
    assert!(!a.same_as(&TaskInfo::new(2, None)));
    let mut tasks = vec![a];
    push_new_task(&mut tasks, a);
    push_new_task(&mut tasks, b);
    assert_eq!(tasks, vec![a, b]);
    assert_eq!(tasks_without(&tasks, 1), vec![]);
    assert_eq!(tasks_without(&tasks, 2), tasks);
}

/// Every page of the index is a merged page of its process, and no class
/// is empty.
fn check_index(pages: &TasksPages, fingerprints: &[u32]) -> usize {
    let mut held = 0;
    let mut listed = 0;
    for crc in fingerprints {
        let classes = pages.uksm().classes(*crc);
        if !classes.is_empty() {
            listed += 1;
        }
        for class in classes {
            assert!(!class.is_empty());
            for page in class {
                assert_eq!(at(pages, page.pid, page.addr), Some((Bucket::Merged, *crc)));
                held += 1;
            }
        }
    }
    assert_eq!(pages.uksm().len(), listed);
    held
}

#[test]
fn the_index_holds_merged_pages_only() {
    let mut tasks = Tasks::new(P);
    let mut pages = TasksPages::new(P);
    let mut kernel = Kernel::new();
    for pid in [100, 200, 300] {
        for (i, crc) in [A, B, A, B].iter().enumerate() {
            kernel.set(pid, 0x1000 * (i as u64 + 1), *crc);
        }
        tasks.add(add(pid), true).unwrap();
    }
    kernel.differ.push((page(100, 0x1000), page(200, 0x1000)));
    kernel.differ.push((page(100, 0x3000), page(200, 0x1000)));
    drain(&mut tasks, &mut pages, &mut kernel);
    tasks.add_refresh_all();
    drain(&mut tasks, &mut pages, &mut kernel);
    assert_eq!(check_index(&pages, &[A, B]), 0);
    tasks.add_merge_all();
    drain(&mut tasks, &mut pages, &mut kernel);
    assert_eq!(check_index(&pages, &[A, B]), 12);
    // A page changes, a page goes, a process goes.
    kernel.set(100, 0x1000, B);
    kernel.pages.get_mut(&200).unwrap().remove(&0x2000);
    tasks.add_refresh_all();
    tasks.del(DelRequest { pid: 300 }).unwrap();
    drain(&mut tasks, &mut pages, &mut kernel);
    let held = check_index(&pages, &[A, B]);
    assert!(held <= 6);
    assert_eq!(at(&pages, 100, 0x1000), Some((Bucket::New, B)));
    assert_eq!(at(&pages, 200, 0x2000), None);
    assert!(!pages.has(300));
    for _ in 0..2 {
        tasks.add_refresh_all();
        drain(&mut tasks, &mut pages, &mut kernel);
        tasks.add_merge_all();
        drain(&mut tasks, &mut pages, &mut kernel);
        assert!(check_index(&pages, &[A, B]) >= held);
    }
    assert_eq!(check_index(&pages, &[A, B]), 7);
    for pid in [100, 200] {
        tasks.del(DelRequest { pid }).unwrap();
    }
    drain(&mut tasks, &mut pages, &mut kernel);
    assert_eq!(check_index(&pages, &[A, B]), 0);
    assert_eq!(pages.uksm().len(), 0);
    assert!(!pages.has(100) && !pages.has(200) && !pages.has(300));
}
