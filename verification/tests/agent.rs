use uksmd::agent::{agent_loop, AgentAction, AgentCmd, AgentEvent, AgentReturn};
use uksmd::error::ErrorKind;
use uksmd::protocols::{AddRequest, DelRequest};
use uksmd::task::{AsyncWork, TaskInfo, Tasks};

const P: u64 = 0x1000;

fn cmd(cmd: AgentCmd) -> AgentEvent {
    AgentEvent::Cmd { cmd, available: true }
}

fn add(pid: u64) -> AgentCmd {
    AgentCmd::Add(AddRequest { pid, addr: None })
}

#[test]
fn a_command_is_answered_and_starts_a_worker() {
    let mut tasks = Tasks::new(P);
    let mut running = false;
    let action = agent_loop(&mut tasks, &mut running, cmd(add(100)));
    assert_eq!(action, AgentAction { ret: Some(AgentReturn::Accepted), work: Some(AsyncWork::Refresh) });
    assert!(running);
    assert!(tasks.is_registered(100));
}

#[test]
fn no_second_worker_is_started() {
    let mut tasks = Tasks::new(P);
    let mut running = false;
    agent_loop(&mut tasks, &mut running, cmd(add(100)));
    let action = agent_loop(&mut tasks, &mut running, cmd(add(200)));
    assert_eq!(action, AgentAction { ret: Some(AgentReturn::Accepted), work: None });
    assert!(running);
    assert_eq!(tasks.refresh_target().len(), 2);
}

#[test]
fn the_end_of_a_worker_starts_the_next() {
    let mut tasks = Tasks::new(P);
    let mut running = false;
    agent_loop(&mut tasks, &mut running, cmd(add(100)));
    assert_eq!(
        agent_loop(&mut tasks, &mut running, cmd(AgentCmd::Del(DelRequest { pid: 100 }))),
        AgentAction { ret: Some(AgentReturn::Accepted), work: None }
    );
    let action = agent_loop(&mut tasks, &mut running, AgentEvent::WorkDone);
    assert_eq!(action, AgentAction { ret: None, work: Some(AsyncWork::UnMerge) });
    assert!(running);
}

#[test]
fn without_work_no_worker_is_started() {
    let mut tasks = Tasks::new(P);
    let mut running = true;
    let action = agent_loop(&mut tasks, &mut running, AgentEvent::WorkDone);
    assert_eq!(action, AgentAction { ret: None, work: None });
    assert!(!running);
    let action = agent_loop(&mut tasks, &mut running, cmd(AgentCmd::Refresh));
    assert_eq!(action, AgentAction { ret: Some(AgentReturn::Accepted), work: None });
    assert!(!running);
}

#[test]
fn a_command_that_fails_is_rejected() {
    let mut tasks = Tasks::new(P);
    let mut running = false;
    let rejected = Some(AgentReturn::Rejected(ErrorKind::PreconditionFailed));
    let event = AgentEvent::Cmd { cmd: add(100), available: false };
    assert_eq!(agent_loop(&mut tasks, &mut running, event), AgentAction { ret: rejected, work: None });
    let event = cmd(AgentCmd::Del(DelRequest { pid: 100 }));
    assert_eq!(agent_loop(&mut tasks, &mut running, event), AgentAction { ret: rejected, work: None });
    agent_loop(&mut tasks, &mut running, cmd(add(100)));
    assert_eq!(agent_loop(&mut tasks, &mut running, cmd(add(100))).ret, rejected);
    // Whether the process can be inspected matters to Add alone.
    let event = AgentEvent::Cmd { cmd: AgentCmd::Del(DelRequest { pid: 100 }), available: false };
    assert_eq!(agent_loop(&mut tasks, &mut running, event).ret, Some(AgentReturn::Accepted));
}

#[test]
fn merge_queues_a_look_and_a_merge() {
    let mut tasks = Tasks::new(P);
    let mut running = true;
    agent_loop(&mut tasks, &mut running, cmd(add(100)));
    agent_loop(&mut tasks, &mut running, cmd(add(200)));
    agent_loop(&mut tasks, &mut running, cmd(AgentCmd::Refresh));
    assert_eq!(tasks.refresh_target().len(), 2);
    assert_eq!(tasks.merge_target().len(), 0);
    agent_loop(&mut tasks, &mut running, cmd(AgentCmd::Merge));
    let mut refresh = tasks.refresh_target().clone();
    refresh.sort_by_key(|task| task.pid);
    assert_eq!(refresh, vec![TaskInfo::new(100, None), TaskInfo::new(200, None)]);
    let mut merge = tasks.merge_target().clone();
    merge.sort();
    assert_eq!(merge, vec![100, 200]);
    // Looking comes before merging.
    assert_eq!(
        agent_loop(&mut tasks, &mut running, AgentEvent::WorkDone).work,
        Some(AsyncWork::Refresh)
    );
}
