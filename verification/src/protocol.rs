//! The wire protocol between coordinator and worker.
//!
//! Four fixed-layout commands travel coordinator-to-worker; each has a
//! fixed-layout reply. Decoding works on a retained byte buffer, so a
//! command split across reads, or several commands arriving in one
//! read, are both handled: the decoder consumes exactly one command
//! when enough bytes are there and leaves the rest in place.

use vstd::prelude::*;

verus! {

pub const OP_IDENTIFY: u8 = 0x01;

pub const OP_STATUS: u8 = 0x02;

pub const OP_SEND_DATA: u8 = 0x03;

pub const OP_REQUEST_RESULT: u8 = 0x04;

/// A request, as the coordinator sends it.
pub enum Command {
    Identify,
    Status,
    SendData(Vec<u8>),
    RequestResult,
}

/// What a [`Command`] says, with its payload as a byte sequence.
pub enum CmdModel {
    Identify,
    Status,
    SendData(Seq<u8>),
    RequestResult,
}

impl View for Command {
    type V = CmdModel;

    open spec fn view(&self) -> CmdModel {
        match self {
            Command::Identify => CmdModel::Identify,
            Command::Status => CmdModel::Status,
            Command::SendData(p) => CmdModel::SendData(p@),
            Command::RequestResult => CmdModel::RequestResult,
        }
    }
}

/// The worker state a STATUS reply reports.
#[derive(Clone, Copy, PartialEq, Eq, Structural, Debug)]
pub enum WorkStatus {
    Idle,
    Running,
    Done,
}

/// A reply, as the worker sends it.
pub enum Reply {
    Name(Vec<u8>),
    StatusIs(WorkStatus),
    Accept(bool),
    ResultIs(Option<u64>),
}

/// What a [`Reply`] says, with the name as a byte sequence.
pub enum ReplyModel {
    Name(Seq<u8>),
    StatusIs(WorkStatus),
    Accept(bool),
    ResultIs(Option<u64>),
}

impl View for Reply {
    type V = ReplyModel;

    open spec fn view(&self) -> ReplyModel {
        match self {
            Reply::Name(n) => ReplyModel::Name(n@),
            Reply::StatusIs(s) => ReplyModel::StatusIs(*s),
            Reply::Accept(b) => ReplyModel::Accept(*b),
            Reply::ResultIs(v) => ReplyModel::ResultIs(*v),
        }
    }
}

/// Which command a reply answers; decoding a reply needs to know it,
/// since the exchange is strict request/response.
#[derive(Clone, Copy, PartialEq, Eq, Structural, Debug)]
pub enum CmdKind {
    Identify,
    Status,
    SendData,
    RequestResult,
}

/// The kind of reply each command kind expects.
pub open spec fn kind_for_reply(r: ReplyModel) -> CmdKind {
    match r {
        ReplyModel::Name(_) => CmdKind::Identify,
        ReplyModel::StatusIs(_) => CmdKind::Status,
        ReplyModel::Accept(_) => CmdKind::SendData,
        ReplyModel::ResultIs(_) => CmdKind::RequestResult,
    }
}

/// A command fits the wire: a data payload carries at most 255 bytes.
pub open spec fn cmd_valid(c: CmdModel) -> bool {
    match c {
        CmdModel::SendData(p) => p.len() <= 255,
        _ => true,
    }
}

/// A reply fits the wire: a name carries at most 255 bytes.
pub open spec fn reply_valid(r: ReplyModel) -> bool {
    match r {
        ReplyModel::Name(n) => n.len() <= 255,
        _ => true,
    }
}

/// The byte a STATUS reply uses for each state.
pub open spec fn status_byte(s: WorkStatus) -> u8 {
    match s {
        WorkStatus::Idle => 0,
        WorkStatus::Running => 1,
        WorkStatus::Done => 2,
    }
}

/// An unsigned 64-bit value as eight little-endian bytes.
pub open spec fn le8_bytes(x: u64) -> Seq<u8> {
    seq![
        (x % 0x100) as u8,
        ((x / 0x100) % 0x100) as u8,
        ((x / 0x10000) % 0x100) as u8,
        ((x / 0x1000000) % 0x100) as u8,
        ((x / 0x100000000) % 0x100) as u8,
        ((x / 0x10000000000) % 0x100) as u8,
        ((x / 0x1000000000000) % 0x100) as u8,
        ((x / 0x100000000000000) % 0x100) as u8,
    ]
}

/// The value eight little-endian bytes carry.
pub open spec fn le8_val(b: Seq<u8>) -> int
    recommends
        b.len() == 8,
{
    b[0] + b[1] * 0x100 + b[2] * 0x10000 + b[3] * 0x1000000 + b[4] * 0x100000000 + b[5]
        * 0x10000000000 + b[6] * 0x1000000000000 + b[7] * 0x100000000000000
}

/// The exact bytes a command puts on the wire.
pub open spec fn spec_encode_cmd(c: CmdModel) -> Seq<u8> {
    match c {
        CmdModel::Identify => seq![OP_IDENTIFY],
        CmdModel::Status => seq![OP_STATUS],
        CmdModel::SendData(p) => seq![OP_SEND_DATA, p.len() as u8] + p,
        CmdModel::RequestResult => seq![OP_REQUEST_RESULT],
    }
}

/// The exact bytes a reply puts on the wire.
pub open spec fn spec_encode_reply(r: ReplyModel) -> Seq<u8> {
    match r {
        ReplyModel::Name(n) => seq![n.len() as u8] + n,
        ReplyModel::StatusIs(s) => seq![status_byte(s)],
        ReplyModel::Accept(b) => seq![
            if b {
                1u8
            } else {
                0u8
            },
        ],
        ReplyModel::ResultIs(v) => match v {
            Option::None => seq![0u8],
            Option::Some(x) => seq![1u8] + le8_bytes(x),
        },
    }
}

/// Outcome of one decode attempt on a byte sequence.
pub enum CmdParse {
    /// Not enough bytes yet for one whole command.
    Pending,
    /// The first byte is no known opcode: fatal for the connection.
    Invalid,
    /// One whole command, and how many bytes it took.
    Parsed { cmd: CmdModel, used: int },
}

/// Outcome of one reply-decode attempt on a byte sequence.
pub enum ReplyParse {
    Pending,
    Invalid,
    Parsed { reply: ReplyModel, used: int },
}

/// Decodes at most one command from the front of `b`.
pub open spec fn parse_cmd(b: Seq<u8>) -> CmdParse {
    if b.len() == 0 {
        CmdParse::Pending
    } else if b[0] == OP_IDENTIFY {
        CmdParse::Parsed { cmd: CmdModel::Identify, used: 1 }
    } else if b[0] == OP_STATUS {
        CmdParse::Parsed { cmd: CmdModel::Status, used: 1 }
    } else if b[0] == OP_REQUEST_RESULT {
        CmdParse::Parsed { cmd: CmdModel::RequestResult, used: 1 }
    } else if b[0] == OP_SEND_DATA {
        if b.len() < 2 {
            CmdParse::Pending
        } else if b.len() < 2 + b[1] {
            CmdParse::Pending
        } else {
            CmdParse::Parsed {
                cmd: CmdModel::SendData(b.subrange(2, 2 + b[1])),
                used: 2 + b[1],
            }
        }
    } else {
        CmdParse::Invalid
    }
}

/// Decodes at most one reply to a command of kind `kind` from the front of `b`.
pub open spec fn parse_reply(kind: CmdKind, b: Seq<u8>) -> ReplyParse {
    if b.len() == 0 {
        ReplyParse::Pending
    } else {
        match kind {
            CmdKind::Identify => if b.len() < 1 + b[0] {
                ReplyParse::Pending
            } else {
                ReplyParse::Parsed {
                    reply: ReplyModel::Name(b.subrange(1, 1 + b[0])),
                    used: 1 + b[0],
                }
            },
            CmdKind::Status => if b[0] == 0 {
                ReplyParse::Parsed { reply: ReplyModel::StatusIs(WorkStatus::Idle), used: 1 }
            } else if b[0] == 1 {
                ReplyParse::Parsed { reply: ReplyModel::StatusIs(WorkStatus::Running), used: 1 }
            } else if b[0] == 2 {
                ReplyParse::Parsed { reply: ReplyModel::StatusIs(WorkStatus::Done), used: 1 }
            } else {
                ReplyParse::Invalid
            },
            CmdKind::SendData => if b[0] == 1 {
                ReplyParse::Parsed { reply: ReplyModel::Accept(true), used: 1 }
            } else if b[0] == 0 {
                ReplyParse::Parsed { reply: ReplyModel::Accept(false), used: 1 }
            } else {
                ReplyParse::Invalid
            },
            CmdKind::RequestResult => if b[0] == 0 {
                ReplyParse::Parsed { reply: ReplyModel::ResultIs(Option::None), used: 1 }
            } else if b[0] == 1 {
                if b.len() < 9 {
                    ReplyParse::Pending
                } else {
                    ReplyParse::Parsed {
                        reply: ReplyModel::ResultIs(
                            Option::Some(le8_val(b.subrange(1, 9)) as u64),
                        ),
                        used: 9,
                    }
                }
            } else {
                ReplyParse::Invalid
            },
        }
    }
}

/// Eight little-endian bytes carry back exactly the value they were
/// made from.
pub proof fn lemma_le8_round_trip(x: u64)
    ensures
        le8_val(le8_bytes(x)) == x,
{
    let xi = x as int;
    vstd::arithmetic::div_mod::lemma_div_denominator(xi, 0x100, 0x100);
    vstd::arithmetic::div_mod::lemma_div_denominator(xi, 0x10000, 0x100);
    vstd::arithmetic::div_mod::lemma_div_denominator(xi, 0x1000000, 0x100);
    vstd::arithmetic::div_mod::lemma_div_denominator(xi, 0x100000000, 0x100);
    vstd::arithmetic::div_mod::lemma_div_denominator(xi, 0x10000000000, 0x100);
    vstd::arithmetic::div_mod::lemma_div_denominator(xi, 0x1000000000000, 0x100);
    vstd::arithmetic::div_mod::lemma_div_denominator(xi, 0x100000000000000, 0x100);
    vstd::arithmetic::div_mod::lemma_fundamental_div_mod(xi, 0x100);
    vstd::arithmetic::div_mod::lemma_fundamental_div_mod(xi / 0x100, 0x100);
    vstd::arithmetic::div_mod::lemma_fundamental_div_mod(xi / 0x10000, 0x100);
    vstd::arithmetic::div_mod::lemma_fundamental_div_mod(xi / 0x1000000, 0x100);
    vstd::arithmetic::div_mod::lemma_fundamental_div_mod(xi / 0x100000000, 0x100);
    vstd::arithmetic::div_mod::lemma_fundamental_div_mod(xi / 0x10000000000, 0x100);
    vstd::arithmetic::div_mod::lemma_fundamental_div_mod(xi / 0x1000000000000, 0x100);
    vstd::arithmetic::div_mod::lemma_fundamental_div_mod(xi / 0x100000000000000, 0x100);
    assert(xi / 0x10000000000000000 == 0) by {
        vstd::arithmetic::div_mod::lemma_basic_div(xi, 0x10000000000000000);
    }
}

/// Copies a byte vector; used where a value is both kept and sent.
pub fn copy_bytes(src: &Vec<u8>) -> (r: Vec<u8>)
    ensures
        r@ == src@,
{
    let mut r: Vec<u8> = Vec::new();
    let mut i: usize = 0;
    while i < src.len()
        invariant
            i <= src@.len(),
            r@ == src@.take(i as int),
        decreases src@.len() - i,
    {
        let b: u8 = src[i];
        r.push(b);
        proof {
            assert(r@ =~= src@.take(i as int + 1));
        }
        i = i + 1;
    }
    proof {
        assert(src@.take(src@.len() as int) =~= src@);
    }
    r
}

/// Writes one command as its wire bytes.
pub fn encode_command(c: &Command) -> (out: Vec<u8>)
    requires
        cmd_valid(c@),
    ensures
        out@ == spec_encode_cmd(c@),
{
    let mut out: Vec<u8> = Vec::new();
    match c {
        Command::Identify => {
            out.push(OP_IDENTIFY);
        },
        Command::Status => {
            out.push(OP_STATUS);
        },
        Command::RequestResult => {
            out.push(OP_REQUEST_RESULT);
        },
        Command::SendData(p) => {
            out.push(OP_SEND_DATA);
            out.push(p.len() as u8);
            let mut i: usize = 0;
            while i < p.len()
                invariant
                    i <= p@.len(),
                    p@.len() <= 255,
                    out@ == seq![OP_SEND_DATA, p@.len() as u8] + p@.take(i as int),
                decreases p@.len() - i,
            {
                let b: u8 = p[i];
                out.push(b);
                proof {
                    assert(out@ =~= seq![OP_SEND_DATA, p@.len() as u8] + p@.take(i as int + 1));
                }
                i = i + 1;
            }
            proof {
                assert(p@.take(p@.len() as int) =~= p@);
            }
        },
    }
    proof {
        assert(out@ =~= spec_encode_cmd(c@));
    }
    out
}

/// Writes one reply as its wire bytes.
pub fn encode_reply(r: &Reply) -> (out: Vec<u8>)
    requires
        reply_valid(r@),
    ensures
        out@ == spec_encode_reply(r@),
{
    let mut out: Vec<u8> = Vec::new();
    match r {
        Reply::Name(n) => {
            out.push(n.len() as u8);
            let mut i: usize = 0;
            while i < n.len()
                invariant
                    i <= n@.len(),
                    n@.len() <= 255,
                    out@ == seq![n@.len() as u8] + n@.take(i as int),
                decreases n@.len() - i,
            {
                let b: u8 = n[i];
                out.push(b);
                proof {
                    assert(out@ =~= seq![n@.len() as u8] + n@.take(i as int + 1));
                }
                i = i + 1;
            }
            proof {
                assert(n@.take(n@.len() as int) =~= n@);
            }
        },
        Reply::StatusIs(s) => {
            match s {
                WorkStatus::Idle => out.push(0),
                WorkStatus::Running => out.push(1),
                WorkStatus::Done => out.push(2),
            }
        },
        Reply::Accept(b) => {
            if *b {
                out.push(1);
            } else {
                out.push(0);
            }
        },
        Reply::ResultIs(v) => {
            match v {
                Option::None => {
                    out.push(0);
                },
                Option::Some(x) => {
                    let x: u64 = *x;
                    out.push(1);
                    out.push((x % 0x100) as u8);
                    out.push(((x / 0x100) % 0x100) as u8);
                    out.push(((x / 0x10000) % 0x100) as u8);
                    out.push(((x / 0x1000000) % 0x100) as u8);
                    out.push(((x / 0x100000000) % 0x100) as u8);
                    out.push(((x / 0x10000000000) % 0x100) as u8);
                    out.push(((x / 0x1000000000000) % 0x100) as u8);
                    out.push(((x / 0x100000000000000) % 0x100) as u8);
                },
            }
        },
    }
    proof {
        assert(out@ =~= spec_encode_reply(r@));
    }
    out
}

/// What one attempt to take a command out of the buffer yielded.
pub enum CommandIn {
    /// The buffer does not yet hold one whole command.
    NeedMore,
    /// The buffer starts with an unknown opcode: fatal for the connection.
    Corrupt,
    /// One whole command, removed from the buffer.
    Ready(Command),
}

/// What one attempt to take a reply out of the buffer yielded.
pub enum ReplyIn {
    NeedMore,
    Corrupt,
    Ready(Reply),
}

/// The retained byte buffer of one connection. Bytes go in as they
/// arrive from the peer; whole commands or replies come out one at a
/// time, so pipelined and split reads both decode correctly.
pub struct FrameBuffer {
    bytes: Vec<u8>,
    start: usize,
}

impl View for FrameBuffer {
    type V = Seq<u8>;

    closed spec fn view(&self) -> Seq<u8> {
        self.bytes@.skip(self.start as int)
    }
}

impl FrameBuffer {
    /// The consumed prefix never passes the end of the storage.
    pub closed spec fn wf(&self) -> bool {
        self.start <= self.bytes@.len()
    }

    pub fn new() -> (r: FrameBuffer)
        ensures
            r.wf(),
            r@ == Seq::<u8>::empty(),
    {
        let r = FrameBuffer { bytes: Vec::new(), start: 0 };
        proof {
            assert(r@ =~= Seq::<u8>::empty());
        }
        r
    }

    pub fn len(&self) -> (n: usize)
        requires
            self.wf(),
        ensures
            n == self@.len(),
    {
        self.bytes.len() - self.start
    }

    /// Appends freshly arrived bytes.
    pub fn feed(&mut self, data: &Vec<u8>)
        requires
            old(self).wf(),
        ensures
            final(self).wf(),
            final(self)@ == old(self)@ + data@,
    {
        let mut i: usize = 0;
        while i < data.len()
            invariant
                i <= data@.len(),
                self.start == old(self).start,
                self.bytes@ == old(self).bytes@ + data@.take(i as int),
            decreases data@.len() - i,
        {
            let b: u8 = data[i];
            self.bytes.push(b);
            proof {
                assert(self.bytes@ =~= old(self).bytes@ + data@.take(i as int + 1));
            }
            i = i + 1;
        }
        proof {
            assert(data@.take(data@.len() as int) =~= data@);
            assert forall|j: int| 0 <= j < self@.len() implies self@[j] == (old(self)@
                + data@)[j] by {
                assert(self@[j] == self.bytes@[self.start + j]);
                if j < old(self)@.len() {
                    assert(old(self)@[j] == old(self).bytes@[old(self).start + j]);
                }
            }
            assert(self@ =~= old(self)@ + data@);
        }
    }

    /// Takes one whole command off the front of the buffer, if one is there.
    pub fn take_command(&mut self) -> (r: CommandIn)
        requires
            old(self).wf(),
        ensures
            final(self).wf(),
            (match parse_cmd(old(self)@) {
                CmdParse::Pending => (r matches CommandIn::NeedMore) && final(self)@ == old(
                    self,
                )@,
                CmdParse::Invalid => (r matches CommandIn::Corrupt) && final(self)@ == old(self)@,
                CmdParse::Parsed { cmd, used } => (r matches CommandIn::Ready(c) && c@ == cmd)
                    && final(self)@ == old(self)@.skip(used),
            }),
    {
        let avail: usize = self.bytes.len() - self.start;
        if avail == 0 {
            return CommandIn::NeedMore;
        }
        let op: u8 = self.bytes[self.start];
        assert(op == old(self)@[0]);
        if op == OP_IDENTIFY || op == OP_STATUS || op == OP_REQUEST_RESULT {
            self.start = self.start + 1;
            proof {
                assert(self@ =~= old(self)@.skip(1));
            }
            if op == OP_IDENTIFY {
                return CommandIn::Ready(Command::Identify);
            }
            if op == OP_STATUS {
                return CommandIn::Ready(Command::Status);
            }
            return CommandIn::Ready(Command::RequestResult);
        }
        if op == OP_SEND_DATA {
            if avail < 2 {
                return CommandIn::NeedMore;
            }
            let l: usize = self.bytes[self.start + 1] as usize;
            assert(l == old(self)@[1]);
            if avail < 2 + l {
                return CommandIn::NeedMore;
            }
            let mut p: Vec<u8> = Vec::new();
            proof {
                assert(p@ =~= old(self)@.subrange(2, 2));
            }
            let mut i: usize = 0;
            while i < l
                invariant
                    i <= l,
                    self == old(self),
                    self.wf(),
                    self.start + 2 + l <= self.bytes@.len(),
                    self.bytes@.len() <= usize::MAX,
                    p@ == old(self)@.subrange(2, 2 + i as int),
                decreases l - i,
            {
                let b: u8 = self.bytes[self.start + 2 + i];
                p.push(b);
                proof {
                    assert(self@ =~= old(self)@);
                    assert(b == old(self)@[2 + i as int]);
                    assert(p@ =~= old(self)@.subrange(2, 2 + i as int + 1));
                }
                i = i + 1;
            }
            self.start = self.start + 2 + l;
            proof {
                assert(self@ =~= old(self)@.skip(2 + l as int));
                assert(p@ == old(self)@.subrange(2, 2 + l as int));
            }
            return CommandIn::Ready(Command::SendData(p));
        }
        CommandIn::Corrupt
    }

    /// Takes one whole reply to a command of kind `kind` off the front
    /// of the buffer, if one is there.
    pub fn take_reply(&mut self, kind: CmdKind) -> (r: ReplyIn)
        requires
            old(self).wf(),
        ensures
            final(self).wf(),
            (match parse_reply(kind, old(self)@) {
                ReplyParse::Pending => (r matches ReplyIn::NeedMore) && final(self)@ == old(
                    self,
                )@,
                ReplyParse::Invalid => (r matches ReplyIn::Corrupt) && final(self)@ == old(self)@,
                ReplyParse::Parsed { reply, used } => (r matches ReplyIn::Ready(re) && re@
                    == reply) && final(self)@ == old(self)@.skip(used),
            }),
    {
        let avail: usize = self.bytes.len() - self.start;
        if avail == 0 {
            return ReplyIn::NeedMore;
        }
        let first: u8 = self.bytes[self.start];
        assert(first == old(self)@[0]);
        match kind {
            CmdKind::Identify => {
                let l: usize = first as usize;
                if avail < 1 + l {
                    return ReplyIn::NeedMore;
                }
                let mut n: Vec<u8> = Vec::new();
                proof {
                    assert(n@ =~= old(self)@.subrange(1, 1));
                }
                let mut i: usize = 0;
                while i < l
                    invariant
                        i <= l,
                        self == old(self),
                        self.wf(),
                        self.start + 1 + l <= self.bytes@.len(),
                        self.bytes@.len() <= usize::MAX,
                        n@ == old(self)@.subrange(1, 1 + i as int),
                    decreases l - i,
                {
                    let b: u8 = self.bytes[self.start + 1 + i];
                    n.push(b);
                    proof {
                        assert(b == old(self)@[1 + i as int]);
                        assert(n@ =~= old(self)@.subrange(1, 1 + i as int + 1));
                    }
                    i = i + 1;
                }
                self.start = self.start + 1 + l;
                proof {
                    assert(self@ =~= old(self)@.skip(1 + l as int));
                    assert(n@ == old(self)@.subrange(1, 1 + l as int));
                }
                ReplyIn::Ready(Reply::Name(n))
            },
            CmdKind::Status => {
                if first > 2 {
                    return ReplyIn::Corrupt;
                }
                self.start = self.start + 1;
                proof {
                    assert(self@ =~= old(self)@.skip(1));
                }
                if first == 0 {
                    ReplyIn::Ready(Reply::StatusIs(WorkStatus::Idle))
                } else if first == 1 {
                    ReplyIn::Ready(Reply::StatusIs(WorkStatus::Running))
                } else {
                    ReplyIn::Ready(Reply::StatusIs(WorkStatus::Done))
                }
            },
            CmdKind::SendData => {
                if first > 1 {
                    return ReplyIn::Corrupt;
                }
                self.start = self.start + 1;
                proof {
                    assert(self@ =~= old(self)@.skip(1));
                }
                if first == 1 {
                    ReplyIn::Ready(Reply::Accept(true))
                } else {
                    ReplyIn::Ready(Reply::Accept(false))
                }
            },
            CmdKind::RequestResult => {
                if first > 1 {
                    return ReplyIn::Corrupt;
                }
                if first == 0 {
                    self.start = self.start + 1;
                    proof {
                        assert(self@ =~= old(self)@.skip(1));
                    }
                    return ReplyIn::Ready(Reply::ResultIs(None));
                }
                if avail < 9 {
                    return ReplyIn::NeedMore;
                }
                let b0: u64 = self.bytes[self.start + 1] as u64;
                let b1: u64 = self.bytes[self.start + 2] as u64;
                let b2: u64 = self.bytes[self.start + 3] as u64;
                let b3: u64 = self.bytes[self.start + 4] as u64;
                let b4: u64 = self.bytes[self.start + 5] as u64;
                let b5: u64 = self.bytes[self.start + 6] as u64;
                let b6: u64 = self.bytes[self.start + 7] as u64;
                let b7: u64 = self.bytes[self.start + 8] as u64;
                let value: u64 = b0 + b1 * 0x100 + b2 * 0x10000 + b3 * 0x1000000 + b4
                    * 0x100000000 + b5 * 0x10000000000 + b6 * 0x1000000000000 + b7
                    * 0x100000000000000;
                proof {
                    let sub = old(self)@.subrange(1, 9);
                    assert(sub[0] == old(self)@[1]);
                    assert(sub[1] == old(self)@[2]);
                    assert(sub[2] == old(self)@[3]);
                    assert(sub[3] == old(self)@[4]);
                    assert(sub[4] == old(self)@[5]);
                    assert(sub[5] == old(self)@[6]);
                    assert(sub[6] == old(self)@[7]);
                    assert(sub[7] == old(self)@[8]);
                    assert(value as int == le8_val(sub));
                }
                self.start = self.start + 9;
                proof {
                    assert(self@ =~= old(self)@.skip(9));
                }
                ReplyIn::Ready(Reply::ResultIs(Some(value)))
            },
        }
    }
}

/// Round trip for every valid command: what `spec_encode_cmd` writes,
/// `parse_cmd` reads back, whatever else follows in the buffer.
pub proof fn lemma_cmd_round_trip(c: CmdModel, rest: Seq<u8>)
    requires
        cmd_valid(c),
    ensures
        parse_cmd(spec_encode_cmd(c) + rest) == (CmdParse::Parsed {
            cmd: c,
            used: spec_encode_cmd(c).len() as int,
        }),
{
    let b = spec_encode_cmd(c) + rest;
    match c {
        CmdModel::SendData(p) => {
            assert(b[0] == OP_SEND_DATA);
            assert(b[1] == p.len() as u8);
            assert(b.subrange(2, 2 + p.len() as u8) =~= p);
        },
        _ => {},
    }
}

/// Round trip for every valid reply, decoded under the kind of the
/// command it answers, whatever else follows in the buffer.
pub proof fn lemma_reply_round_trip(r: ReplyModel, rest: Seq<u8>)
    requires
        reply_valid(r),
    ensures
        parse_reply(kind_for_reply(r), spec_encode_reply(r) + rest) == (ReplyParse::Parsed {
            reply: r,
            used: spec_encode_reply(r).len() as int,
        }),
{
    let b = spec_encode_reply(r) + rest;
    match r {
        ReplyModel::Name(n) => {
            assert(b[0] == n.len() as u8);
            assert(b.subrange(1, 1 + n.len() as u8) =~= n);
        },
        ReplyModel::ResultIs(v) => {
            match v {
                Option::Some(x) => {
                    assert(b[0] == 1);
                    assert(b.subrange(1, 9) =~= le8_bytes(x));
                    lemma_le8_round_trip(x);
                },
                Option::None => {},
            }
        },
        _ => {},
    }
}

} // verus!
