//! The worker-side state machine.
//!
//! One agent answers protocol queries for one worker process. The
//! surrounding application runs the event loop: it decodes a command,
//! hands it here, writes the reply back, and when a launch payload
//! comes out it starts the computation on another thread. When that
//! thread finishes it publishes the value through [`WorkerAgent::publish_result`];
//! the application must order the publication so that the event loop
//! observes the result only together with the done flag, which this
//! type keeps as one unit behind one exclusive reference.

use vstd::prelude::*;
use crate::protocol::{CmdModel, Command, Reply, ReplyModel, WorkStatus};

verus! {

/// The state shared between the polling loop and the computation.
pub struct WorkerAgent {
    /// Display name returned to IDENTIFY; at most 255 bytes.
    pub name: Vec<u8>,
    /// An assignment was accepted and not yet collected.
    pub working: bool,
    /// The computation finished and `result` is valid.
    pub done: bool,
    /// Valid only once `done` is true.
    pub result: u64,
}

impl WorkerAgent {
    /// The name fits one length byte on the wire.
    pub open spec fn wf(&self) -> bool {
        self.name@.len() <= 255
    }

    /// The status the agent reports: idle when no assignment is held,
    /// done once the result is published, running in between.
    pub open spec fn status_model(&self) -> WorkStatus {
        if !self.working {
            WorkStatus::Idle
        } else if self.done {
            WorkStatus::Done
        } else {
            WorkStatus::Running
        }
    }

    pub fn new(name: Vec<u8>) -> (r: WorkerAgent)
        requires
            name@.len() <= 255,
        ensures
            r.wf(),
            r.name@ == name@,
            !r.working,
            !r.done,
    {
        WorkerAgent { name, working: false, done: false, result: 0 }
    }

    /// Answers one decoded command. Returns the reply to send and,
    /// for an accepted assignment, the payload to hand to the
    /// computation thread.
    ///
    /// - IDENTIFY reports the configured name and changes nothing.
    /// - STATUS reports [`WorkerAgent::status_model`] and changes nothing.
    /// - SEND_DATA is rejected while an assignment is held; otherwise
    ///   it is accepted at once, without waiting for the computation.
    /// - REQUEST_RESULT reports no result until `done`; once done it
    ///   returns the value and clears `working`, so a new assignment
    ///   can be accepted.
    pub fn handle_command(&mut self, cmd: Command) -> (r: (Reply, Option<Vec<u8>>))
        requires
            old(self).wf(),
        ensures
            final(self).wf(),
            final(self).name@ == old(self).name@,
            (match cmd@ {
                CmdModel::Identify => r.0@ == ReplyModel::Name(old(self).name@) && *final(self)
                    == *old(self) && (r.1 matches Option::None),
                CmdModel::Status => r.0@ == ReplyModel::StatusIs(old(self).status_model())
                    && *final(self) == *old(self) && (r.1 matches Option::None),
                CmdModel::SendData(p) => if old(self).working {
                    r.0@ == ReplyModel::Accept(false) && *final(self) == *old(self) && (
                    r.1 matches Option::None)
                } else {
                    r.0@ == ReplyModel::Accept(true) && final(self).working && !final(self).done
                        && final(self).result == old(self).result && (r.1 matches Option::Some(q)
                        && q@ == p)
                },
                CmdModel::RequestResult => if old(self).done {
                    r.0@ == ReplyModel::ResultIs(Option::Some(old(self).result))
                        && !final(self).working && final(self).done == old(self).done
                        && final(self).result == old(self).result && (r.1 matches Option::None)
                } else {
                    r.0@ == ReplyModel::ResultIs(Option::None) && *final(self) == *old(self) && (
                    r.1 matches Option::None)
                },
            }),
    {
        match cmd {
            Command::Identify => {
                let name = crate::protocol::copy_bytes(&self.name);
                (Reply::Name(name), None)
            },
            Command::Status => {
                let status = if !self.working {
                    WorkStatus::Idle
                } else if self.done {
                    WorkStatus::Done
                } else {
                    WorkStatus::Running
                };
                (Reply::StatusIs(status), None)
            },
            Command::SendData(p) => {
                if self.working {
                    (Reply::Accept(false), None)
                } else {
                    self.working = true;
                    self.done = false;
                    (Reply::Accept(true), Some(p))
                }
            },
            Command::RequestResult => {
                if self.done {
                    self.working = false;
                    (Reply::ResultIs(Some(self.result)), None)
                } else {
                    (Reply::ResultIs(None), None)
                }
            },
        }
    }

    /// Publishes a finished computation: the value becomes valid in
    /// the same step that sets the done flag.
    pub fn publish_result(&mut self, value: u64)
        requires
            old(self).wf(),
        ensures
            final(self).wf(),
            final(self).name@ == old(self).name@,
            final(self).working == old(self).working,
            final(self).done,
            final(self).result == value,
    {
        self.result = value;
        self.done = true;
    }
}

} // verus!
