//! The coordinator-side state machine: one session per connected
//! worker, and the progress monitor.
//!
//! The surrounding application owns the socket. Each polling cycle it
//! asks the worker for its status, hands the decoded status here, and
//! performs the returned action: deliver a payload, collect a result,
//! or nothing. A disconnected or misbehaving peer ends only its own
//! session; its outstanding item goes back to the queue.

use vstd::prelude::*;
use crate::protocol::WorkStatus;
use crate::queue::{CompletedSet, ItemModel, WorkItem, WorkQueue};

verus! {

/// The one failure the state machine itself detects: the peer broke
/// the request/response contract (for example, it reported Done and
/// then had no result ready). Fatal for the session, for nothing else.
#[derive(Clone, Copy, PartialEq, Eq, Structural, Debug)]
pub enum SessionError {
    ProtocolViolation,
}

/// What the application must do next on this connection.
pub enum SessionAction {
    /// Nothing this cycle.
    Pass,
    /// Send the payload as an assignment; the session now holds the item.
    Deliver(Vec<u8>),
    /// Ask for the result.
    Collect,
}

/// Coordinator-side state for one connected worker.
pub struct Session {
    pub id: u64,
    pub name: Vec<u8>,
    /// The item handed to the worker and not yet collected.
    pub assigned: Option<WorkItem>,
}

/// What the session's outstanding assignment holds.
pub open spec fn assigned_model(s: Session) -> Option<ItemModel> {
    match s.assigned {
        Option::Some(it) => Option::Some(it@),
        Option::None => Option::None,
    }
}

impl Session {
    pub fn new(id: u64) -> (s: Session)
        ensures
            s.id == id,
            s.name@ == Seq::<u8>::empty(),
            s.assigned matches Option::None,
    {
        Session { id, name: Vec::new(), assigned: None }
    }

    /// Records the name the worker reported to IDENTIFY.
    pub fn set_name(&mut self, name: Vec<u8>)
        ensures
            final(self).id == old(self).id,
            final(self).name@ == name@,
            final(self).assigned == old(self).assigned,
    {
        self.name = name;
    }

    /// One polling cycle, driven by the status the worker reported.
    ///
    /// - Idle with no assignment held: dequeue one item if any is
    ///   pending and deliver its payload; an empty queue is a no-op.
    /// - Idle while an assignment is held, and Running: no-op.
    /// - Done with an assignment held: collect the result.
    /// - Done with nothing assigned: a protocol violation.
    pub fn on_status(&mut self, status: WorkStatus, queue: &mut WorkQueue) -> (r: Result<
        SessionAction,
        SessionError,
    >)
        ensures
            final(self).id == old(self).id,
            final(self).name@ == old(self).name@,
            (match status {
                WorkStatus::Idle => if old(self).assigned matches Option::Some(_) {
                    r == Ok::<SessionAction, SessionError>(SessionAction::Pass) && final(self).assigned == old(self).assigned && final(queue)@ == old(queue)@
                } else if old(queue)@.len() == 0 {
                    r == Ok::<SessionAction, SessionError>(SessionAction::Pass) && (final(self).assigned matches Option::None) && final(queue)@ == old(queue)@
                } else {
                    (r matches Ok(SessionAction::Deliver(p)) && p@ == old(queue)@[0].payload) && (
                    assigned_model(*final(self)) matches Option::Some(m) && m == old(queue)@[0])
                        && final(queue)@ == old(queue)@.drop_first()
                },
                WorkStatus::Running => r == Ok::<SessionAction, SessionError>(SessionAction::Pass)
                    && final(self).assigned == old(self).assigned && final(queue)@ == old(queue)@,
                WorkStatus::Done => if old(self).assigned matches Option::Some(_) {
                    r == Ok::<SessionAction, SessionError>(SessionAction::Collect) && final(self).assigned == old(self).assigned && final(queue)@ == old(queue)@
                } else {
                    r == Err::<SessionAction, SessionError>(SessionError::ProtocolViolation) && (
                    final(self).assigned matches Option::None) && final(queue)@ == old(queue)@
                },
            }),
    {
        match status {
            WorkStatus::Idle => {
                if self.assigned.is_some() {
                    return Ok(SessionAction::Pass);
                }
                match queue.dequeue() {
                    None => Ok(SessionAction::Pass),
                    Some(item) => {
                        let payload = crate::protocol::copy_bytes(&item.payload);
                        self.assigned = Some(item);
                        Ok(SessionAction::Deliver(payload))
                    },
                }
            },
            WorkStatus::Running => Ok(SessionAction::Pass),
            WorkStatus::Done => {
                if self.assigned.is_some() {
                    Ok(SessionAction::Collect)
                } else {
                    Err(SessionError::ProtocolViolation)
                }
            },
        }
    }

    /// Books the collected result: attaches it to the outstanding item
    /// and moves that item into the completed set.
    ///
    /// A worker that reported Done and then has no result available,
    /// or a result arriving with nothing assigned, is a protocol
    /// violation; nothing moves in that case.
    pub fn on_result(&mut self, value: Option<u64>, done: &mut CompletedSet) -> (r: Result<
        (),
        SessionError,
    >)
        requires
            old(done).wf(),
        ensures
            final(done).wf(),
            final(self).id == old(self).id,
            final(self).name@ == old(self).name@,
            (match (assigned_model(*old(self)), value) {
                (Option::Some(m), Option::Some(v)) => r == Ok::<(), SessionError>(()) && (final(self).assigned matches Option::None) && final(done)@ == old(done)@.push(
                    (ItemModel { payload: m.payload, result: Option::Some(v) }),
                ),
                _ => r == Err::<(), SessionError>(SessionError::ProtocolViolation) && final(self).assigned == old(self).assigned && final(done)@ == old(done)@,
            }),
    {
        match value {
            None => Err(SessionError::ProtocolViolation),
            Some(v) => {
                let taken = self.assigned.take();
                match taken {
                    None => Err(SessionError::ProtocolViolation),
                    Some(mut item) => {
                        item.result = Some(v);
                        done.add(item);
                        Ok(())
                    },
                }
            },
        }
    }

    /// The disconnect policy: an outstanding item goes back to the
    /// end of the queue, so a lost worker never loses work.
    pub fn on_disconnect(&mut self, queue: &mut WorkQueue)
        ensures
            final(self).id == old(self).id,
            final(self).name@ == old(self).name@,
            final(self).assigned matches Option::None,
            (match assigned_model(*old(self)) {
                Option::Some(m) => final(queue)@ == old(queue)@.push(m),
                Option::None => final(queue)@ == old(queue)@,
            }),
    {
        let taken = self.assigned.take();
        match taken {
            None => {},
            Some(item) => {
                queue.enqueue(item);
            },
        }
    }
}

/// What one monitor pass found.
pub enum MonitorReport {
    /// Work is still outstanding, or the total was already reported.
    NotReady,
    /// All items are complete: their summed total, reported this once.
    Finished(u64),
    /// All items are complete but the sum exceeds 64 bits; reported
    /// this once.
    Oversized,
}

/// Reports the summed total exactly once, as soon as the completed
/// set has reached the size of the original dataset.
pub struct ProgressMonitor {
    pub expected: usize,
    pub reported: bool,
}

impl ProgressMonitor {
    pub fn new(expected: usize) -> (m: ProgressMonitor)
        ensures
            m.expected == expected,
            !m.reported,
    {
        ProgressMonitor { expected, reported: false }
    }

    /// One monitor pass. Yields `Finished` with the exact sum the
    /// first time the completed set is full, and `NotReady` on every
    /// pass before and after.
    pub fn tick(&mut self, done: &CompletedSet) -> (r: MonitorReport)
        ensures
            final(self).expected == old(self).expected,
            (if old(self).reported || done@.len() < old(self).expected {
                (r matches MonitorReport::NotReady) && final(self).reported == old(self).reported
            } else if crate::queue::sum_results(done@) <= u64::MAX {
                (r matches MonitorReport::Finished(t) && t as int == crate::queue::sum_results(
                    done@,
                )) && final(self).reported
            } else {
                (r matches MonitorReport::Oversized) && final(self).reported
            }),
    {
        if self.reported {
            return MonitorReport::NotReady;
        }
        if done.len() < self.expected {
            return MonitorReport::NotReady;
        }
        self.reported = true;
        match done.total() {
            Some(t) => MonitorReport::Finished(t),
            None => MonitorReport::Oversized,
        }
    }
}

} // verus!
