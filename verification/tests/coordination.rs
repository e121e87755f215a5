use workpool::engine::simulate;
use workpool::new_client_id;
use workpool::protocol::{Command, CommandIn, FrameBuffer, Reply, WorkStatus};
use workpool::queue::{prepare_work_queue, CompletedSet, WorkItem, WorkQueue};
use workpool::session::{
    MonitorReport, ProgressMonitor, Session, SessionAction, SessionError,
};
use workpool::worker::WorkerAgent;

#[test]
fn client_ids_count_up() {
    let mut counter: u64 = 0;
    assert_eq!(new_client_id(&mut counter), 0);
    assert_eq!(new_client_id(&mut counter), 1);
    assert_eq!(new_client_id(&mut counter), 2);
    assert_eq!(counter, 3);
}

#[test]
fn prepared_queue_has_one_item_per_value() {
    let (mut queue, count) = prepare_work_queue(vec![3, 4, 3, 1, 2]);
    assert_eq!(count, 5);
    assert_eq!(queue.len(), 5);
    let first = queue.dequeue().unwrap();
    assert_eq!(first.payload, vec![3]);
    assert_eq!(first.result, None);
    assert_eq!(queue.dequeue().unwrap().payload, vec![4]);
}

#[test]
fn dequeue_hands_out_each_item_exactly_once() {
    // N items, M = 3 dequeuers taking turns at the shared queue: every
    // item comes out exactly once, in queue order, and none is lost.
    let (mut queue, count) = prepare_work_queue(vec![10, 20, 30, 40, 50, 60, 70]);
    let mut received: Vec<Vec<u8>> = vec![Vec::new(), Vec::new(), Vec::new()];
    let mut turn: usize = 0;
    loop {
        match queue.dequeue() {
            Some(item) => received[turn % 3].push(item.payload[0]),
            None => break,
        }
        turn += 1;
    }
    assert_eq!(queue.len(), 0);
    let mut all: Vec<u8> = Vec::new();
    for r in &received {
        all.extend(r);
    }
    all.sort();
    assert_eq!(all, vec![10, 20, 30, 40, 50, 60, 70]);
    assert_eq!(turn, count);
}

#[test]
fn worker_full_cycle() {
    let mut agent = WorkerAgent::new(b"worker-one".to_vec());

    match agent.handle_command(Command::Identify) {
        (Reply::Name(n), None) => assert_eq!(n, b"worker-one".to_vec()),
        _ => panic!("expected the configured name"),
    }

    assert!(matches!(
        agent.handle_command(Command::Status),
        (Reply::StatusIs(WorkStatus::Idle), None)
    ));

    // no result before any work
    assert!(matches!(
        agent.handle_command(Command::RequestResult),
        (Reply::ResultIs(None), None)
    ));

    // accept an assignment; the payload comes back for the compute thread
    let launched = match agent.handle_command(Command::SendData(vec![3])) {
        (Reply::Accept(true), Some(p)) => p,
        _ => panic!("expected the assignment to be accepted"),
    };
    assert_eq!(launched, vec![3]);

    assert!(matches!(
        agent.handle_command(Command::Status),
        (Reply::StatusIs(WorkStatus::Running), None)
    ));

    // a second assignment while working is rejected
    assert!(matches!(
        agent.handle_command(Command::SendData(vec![1])),
        (Reply::Accept(false), None)
    ));

    // the computation finishes and publishes
    let total = simulate(&launched, 6, 256).unwrap();
    agent.publish_result(total);

    assert!(matches!(
        agent.handle_command(Command::Status),
        (Reply::StatusIs(WorkStatus::Done), None)
    ));

    match agent.handle_command(Command::RequestResult) {
        (Reply::ResultIs(Some(v)), None) => assert_eq!(v, total),
        _ => panic!("expected the published result"),
    }

    // collecting the result frees the worker for new work
    assert!(matches!(
        agent.handle_command(Command::Status),
        (Reply::StatusIs(WorkStatus::Idle), None)
    ));
    assert!(matches!(
        agent.handle_command(Command::SendData(vec![2])),
        (Reply::Accept(true), Some(_))
    ));
}

/// Drives one session/worker pair for one full item, start to finish.
fn run_one_item(
    session: &mut Session,
    queue: &mut WorkQueue,
    done: &mut CompletedSet,
) -> bool {
    let mut agent = WorkerAgent::new(b"w".to_vec());
    loop {
        let (reply, launch) = agent.handle_command(Command::Status);
        let status = match reply {
            Reply::StatusIs(s) => s,
            _ => panic!("status expected"),
        };
        assert!(launch.is_none());
        match session.on_status(status, queue).unwrap() {
            SessionAction::Pass => {
                if session.assigned.is_none() {
                    return false;  // queue was empty
                }
            }
            SessionAction::Deliver(payload) => {
                match agent.handle_command(Command::SendData(payload)) {
                    (Reply::Accept(true), Some(p)) => {
                        let total = simulate(&p, 6, 256).unwrap();
                        agent.publish_result(total);
                    }
                    _ => panic!("assignment should be accepted"),
                }
            }
            SessionAction::Collect => {
                let value = match agent.handle_command(Command::RequestResult) {
                    (Reply::ResultIs(v), None) => v,
                    _ => panic!("result expected"),
                };
                session.on_result(value, done).unwrap();
                return true;
            }
        }
    }
}

#[test]
fn scenario_full_dataset_reported_once() {
    // dataset 3,4,3,1,2 as five single-value items, 256 rounds each,
    // reset 6: the monitor reports the summed total exactly once.
    let (mut queue, count) = prepare_work_queue(vec![3, 4, 3, 1, 2]);
    let mut done = CompletedSet::new();
    let mut monitor = ProgressMonitor::new(count);
    let mut ids: u64 = 0;
    let mut s1 = Session::new(new_client_id(&mut ids));
    let mut s2 = Session::new(new_client_id(&mut ids));

    assert!(matches!(monitor.tick(&done), MonitorReport::NotReady));

    let mut flip = false;
    loop {
        let s = if flip { &mut s2 } else { &mut s1 };
        flip = !flip;
        if !run_one_item(s, &mut queue, &mut done) {
            break;
        }
    }

    assert_eq!(done.len(), 5);
    match monitor.tick(&done) {
        MonitorReport::Finished(total) => assert_eq!(total, 26984457539),
        _ => panic!("expected the one report"),
    }
    // never a second report
    assert!(matches!(monitor.tick(&done), MonitorReport::NotReady));
}

#[test]
fn scenario_disconnect_requeues_outstanding_item() {
    // a worker takes [2,3,8,1] and disconnects before REQUEST_RESULT:
    // the session ends cleanly and the item goes back to the queue,
    // where another session picks it up.
    let mut queue = WorkQueue::new();
    queue.enqueue(WorkItem { payload: vec![2, 3, 8, 1], result: None });
    let mut done = CompletedSet::new();

    let mut lost = Session::new(0);
    match lost.on_status(WorkStatus::Idle, &mut queue).unwrap() {
        SessionAction::Deliver(p) => assert_eq!(p, vec![2, 3, 8, 1]),
        _ => panic!("expected an assignment"),
    }
    assert_eq!(queue.len(), 0);

    // peer disconnects before the result is collected
    lost.on_disconnect(&mut queue);
    assert!(lost.assigned.is_none());
    assert_eq!(queue.len(), 1);

    // the coordinator keeps serving: a second session finishes the item
    let mut other = Session::new(1);
    assert!(run_one_item(&mut other, &mut queue, &mut done));
    assert_eq!(done.len(), 1);
}

#[test]
fn scenario_bad_opcode_fails_only_that_session() {
    // an opcode of 0x09 is fatal for its own connection and no other
    let mut bad = FrameBuffer::new();
    bad.feed(&vec![0x09]);
    assert!(matches!(bad.take_command(), CommandIn::Corrupt));

    // the misbehaving peer's session ends; its state is torn down
    let mut queue = WorkQueue::new();
    queue.enqueue(WorkItem { payload: vec![3], result: None });
    let mut failed = Session::new(0);
    failed.on_disconnect(&mut queue);

    // every other session keeps working against the same coordinator state
    let mut done = CompletedSet::new();
    let mut healthy = Session::new(1);
    assert!(run_one_item(&mut healthy, &mut queue, &mut done));
    assert_eq!(done.len(), 1);
    assert_eq!(queue.len(), 0);
}

#[test]
fn done_without_assignment_is_a_violation() {
    let mut queue = WorkQueue::new();
    let mut session = Session::new(0);
    assert!(matches!(
        session.on_status(WorkStatus::Done, &mut queue),
        Err(SessionError::ProtocolViolation)
    ));
}

#[test]
fn done_then_unavailable_result_is_a_violation() {
    let mut queue = WorkQueue::new();
    queue.enqueue(WorkItem { payload: vec![1], result: None });
    let mut done = CompletedSet::new();
    let mut session = Session::new(0);
    assert!(matches!(
        session.on_status(WorkStatus::Idle, &mut queue).unwrap(),
        SessionAction::Deliver(_)
    ));
    assert!(matches!(
        session.on_result(None, &mut done),
        Err(SessionError::ProtocolViolation)
    ));
    // the item is still held, and the disconnect policy requeues it
    session.on_disconnect(&mut queue);
    assert_eq!(queue.len(), 1);
}

#[test]
fn monitor_waits_for_the_full_set() {
    let mut done = CompletedSet::new();
    done.add(WorkItem { payload: vec![1], result: Some(7) });
    let mut monitor = ProgressMonitor::new(2);
    assert!(matches!(monitor.tick(&done), MonitorReport::NotReady));
    done.add(WorkItem { payload: vec![2], result: Some(5) });
    match monitor.tick(&done) {
        MonitorReport::Finished(total) => assert_eq!(total, 12),
        _ => panic!("expected the report"),
    }
}

#[test]
fn monitor_oversized_total_reported_once() {
    let mut done = CompletedSet::new();
    done.add(WorkItem { payload: vec![1], result: Some(u64::MAX) });
    done.add(WorkItem { payload: vec![2], result: Some(1) });
    let mut monitor = ProgressMonitor::new(2);
    assert!(matches!(monitor.tick(&done), MonitorReport::Oversized));
    assert!(matches!(monitor.tick(&done), MonitorReport::NotReady));
}

#[test]
fn completed_total_sums_results() {
    let mut done = CompletedSet::new();
    done.add(WorkItem { payload: vec![1], result: Some(100) });
    done.add(WorkItem { payload: vec![2], result: Some(23) });
    assert_eq!(done.total(), Some(123));
}

#[test]
fn idle_with_assignment_held_is_a_no_op() {
    let mut queue = WorkQueue::new();
    queue.enqueue(WorkItem { payload: vec![1], result: None });
    queue.enqueue(WorkItem { payload: vec![2], result: None });
    let mut session = Session::new(0);
    assert!(matches!(
        session.on_status(WorkStatus::Idle, &mut queue).unwrap(),
        SessionAction::Deliver(_)
    ));
    // a stray Idle while an item is outstanding must not grab a second one
    assert!(matches!(
        session.on_status(WorkStatus::Idle, &mut queue).unwrap(),
        SessionAction::Pass
    ));
    assert_eq!(queue.len(), 1);
}
