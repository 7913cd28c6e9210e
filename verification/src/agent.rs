//! The loop that takes the commands of the control interface and starts
//! the workers.

use crate::error::ErrorKind;
use crate::protocols::{AddRequest, DelRequest};
use crate::task::{
    admits, deleted, merged_all, next_work, refreshed_all, registered, AsyncWork, Queues, Tasks,
};
use vstd::prelude::*;

verus! {

/// A command of the control interface.
#[derive(Debug, Clone, Copy, PartialEq, Eq, Structural)]
pub enum AgentCmd {
    /// Register a process.
    Add(AddRequest),
    /// Take a process out of the registry.
    Del(DelRequest),
    /// Look at every registered process again.
    Refresh,
    /// Look at every registered process again, then merge its old pages.
    Merge,
}

/// The answer to a command.
#[derive(Debug, Clone, Copy, PartialEq, Eq, Structural)]
pub enum AgentReturn {
    /// The command was accepted.
    Accepted,
    /// The command was rejected.
    Rejected(ErrorKind),
}

/// What the loop wakes up for.
#[derive(Debug, Clone, Copy, PartialEq, Eq, Structural)]
pub enum AgentEvent {
    /// A command has come in.  `available` says whether the process that
    /// the command names can be inspected; only `AgentCmd::Add` reads it.
    Cmd { cmd: AgentCmd, available: bool },
    /// The worker has ended.
    WorkDone,
}

/// What the loop does before it waits again.
#[derive(Debug, Clone, Copy, PartialEq, Eq, Structural)]
pub struct AgentAction {
    /// The answer to the command, if the loop woke up for one.
    pub ret: Option<AgentReturn>,
    /// The kind of the worker that is to be started, if one is.
    pub work: Option<AsyncWork>,
}

/// Whether `after` and `ret` are what a command makes of the registry and
/// the queues `before`, and the answer to it.
pub open spec fn commanded(
    before: Queues,
    cmd: AgentCmd,
    available: bool,
    after: Queues,
    ret: AgentReturn,
) -> bool {
    match cmd {
        AgentCmd::Add(req) => if admits(before, req, available) {
            after == registered(before, req) && ret == AgentReturn::Accepted
        } else {
            after == before && ret == AgentReturn::Rejected(ErrorKind::PreconditionFailed)
        },
        AgentCmd::Del(req) => if before.map.contains_key(req.pid) {
            after == deleted(before, req.pid) && ret == AgentReturn::Accepted
        } else {
            after == before && ret == AgentReturn::Rejected(ErrorKind::PreconditionFailed)
        },
        AgentCmd::Refresh => refreshed_all(before, after) && ret == AgentReturn::Accepted,
        AgentCmd::Merge => {
            &&& ret == AgentReturn::Accepted
            &&& exists|between: Queues| #[trigger]
                refreshed_all(before, between) && merged_all(between, after)
        },
    }
}

/// One turn of the loop.
///
/// A command changes the registry and the queues and gets its answer; the
/// end of the worker is taken note of.  Then, if no worker is running, one
/// is started for the kind of work that is due, if any is.
pub fn agent_loop(tasks: &mut Tasks, work_is_running: &mut bool, event: AgentEvent) -> (action:
    AgentAction)
    requires
        old(tasks)@.page_size > 0,
    ensures
        match event {
            AgentEvent::Cmd { cmd, available } => {
                &&& action.ret matches Some(ret)
                &&& commanded(old(tasks)@, cmd, available, final(tasks)@, ret)
                &&& action.work == if *old(work_is_running) {
                    None
                } else {
                    next_work(final(tasks)@)
                }
                &&& *final(work_is_running) == (*old(work_is_running) || action.work is Some)
            },
            AgentEvent::WorkDone => {
                &&& action.ret is None
                &&& final(tasks)@ == old(tasks)@
                &&& action.work == next_work(final(tasks)@)
                &&& *final(work_is_running) == action.work is Some
            },
        },
{
    let mut ret: Option<AgentReturn> = None;
    match event {
        AgentEvent::Cmd { cmd, available } => {
            let mut ret_msg = AgentReturn::Accepted;
            match cmd {
                AgentCmd::Add(req) => {
                    if let Err(e) = tasks.add(req, available) {
                        ret_msg = AgentReturn::Rejected(e);
                    }
                },
                AgentCmd::Del(req) => {
                    if let Err(e) = tasks.del(req) {
                        ret_msg = AgentReturn::Rejected(e);
                    }
                },
                AgentCmd::Refresh => {
                    tasks.add_refresh_all();
                },
                AgentCmd::Merge => {
                    tasks.add_refresh_all();
                    let ghost between = tasks@;
                    tasks.add_merge_all();
                    assert(refreshed_all(old(tasks)@, between) && merged_all(between, tasks@));
                },
            }
            ret = Some(ret_msg);
        },
        AgentEvent::WorkDone => {
            *work_is_running = false;
        },
    }
    let mut work: Option<AsyncWork> = None;
    if !*work_is_running {
        work = tasks.async_work();
        *work_is_running = work.is_some();
    }
    AgentAction { ret, work }
}

} // verus!
