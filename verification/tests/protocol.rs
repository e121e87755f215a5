use workpool::protocol::{
    encode_command, encode_reply, CmdKind, Command, CommandIn, FrameBuffer, Reply, ReplyIn,
    WorkStatus,
};

fn feed_all(buf: &mut FrameBuffer, bytes: &[u8]) {
    let v: Vec<u8> = bytes.to_vec();
    buf.feed(&v);
}

#[test]
fn identify_request_round_trip() {
    let mut buf = FrameBuffer::new();
    buf.feed(&encode_command(&Command::Identify));
    assert!(matches!(buf.take_command(), CommandIn::Ready(Command::Identify)));
    assert_eq!(buf.len(), 0);
}

#[test]
fn status_request_round_trip() {
    let mut buf = FrameBuffer::new();
    buf.feed(&encode_command(&Command::Status));
    assert!(matches!(buf.take_command(), CommandIn::Ready(Command::Status)));
}

#[test]
fn request_result_round_trip() {
    let mut buf = FrameBuffer::new();
    buf.feed(&encode_command(&Command::RequestResult));
    assert!(matches!(buf.take_command(), CommandIn::Ready(Command::RequestResult)));
}

#[test]
fn send_data_round_trip() {
    let mut buf = FrameBuffer::new();
    buf.feed(&encode_command(&Command::SendData(vec![2, 3, 8, 1])));
    match buf.take_command() {
        CommandIn::Ready(Command::SendData(p)) => assert_eq!(p, vec![2, 3, 8, 1]),
        _ => panic!("expected a SEND_DATA command"),
    }
    assert_eq!(buf.len(), 0);
}

#[test]
fn send_data_empty_payload_round_trip() {
    let mut buf = FrameBuffer::new();
    buf.feed(&encode_command(&Command::SendData(vec![])));
    match buf.take_command() {
        CommandIn::Ready(Command::SendData(p)) => assert!(p.is_empty()),
        _ => panic!("expected a SEND_DATA command"),
    }
}

#[test]
fn send_data_max_payload_round_trip() {
    let payload: Vec<u8> = (0..255u16).map(|x| (x % 256) as u8).collect();
    let mut buf = FrameBuffer::new();
    buf.feed(&encode_command(&Command::SendData(payload.clone())));
    match buf.take_command() {
        CommandIn::Ready(Command::SendData(p)) => assert_eq!(p, payload),
        _ => panic!("expected a SEND_DATA command"),
    }
}

#[test]
fn command_split_across_reads() {
    let bytes = encode_command(&Command::SendData(vec![7, 7, 7]));
    let mut buf = FrameBuffer::new();
    feed_all(&mut buf, &bytes[..2]);
    assert!(matches!(buf.take_command(), CommandIn::NeedMore));
    feed_all(&mut buf, &bytes[2..]);
    match buf.take_command() {
        CommandIn::Ready(Command::SendData(p)) => assert_eq!(p, vec![7, 7, 7]),
        _ => panic!("expected a SEND_DATA command"),
    }
}

#[test]
fn two_commands_in_one_read() {
    let mut bytes = encode_command(&Command::Status);
    bytes.extend(encode_command(&Command::SendData(vec![9])));
    let mut buf = FrameBuffer::new();
    buf.feed(&bytes);
    assert!(matches!(buf.take_command(), CommandIn::Ready(Command::Status)));
    match buf.take_command() {
        CommandIn::Ready(Command::SendData(p)) => assert_eq!(p, vec![9]),
        _ => panic!("expected a SEND_DATA command"),
    }
    assert!(matches!(buf.take_command(), CommandIn::NeedMore));
}

#[test]
fn unknown_opcode_is_corrupt() {
    let mut buf = FrameBuffer::new();
    feed_all(&mut buf, &[0x09]);
    assert!(matches!(buf.take_command(), CommandIn::Corrupt));
}

#[test]
fn empty_buffer_needs_more() {
    let mut buf = FrameBuffer::new();
    assert!(matches!(buf.take_command(), CommandIn::NeedMore));
}

#[test]
fn name_reply_round_trip() {
    let mut buf = FrameBuffer::new();
    buf.feed(&encode_reply(&Reply::Name(b"alpha".to_vec())));
    match buf.take_reply(CmdKind::Identify) {
        ReplyIn::Ready(Reply::Name(n)) => assert_eq!(n, b"alpha".to_vec()),
        _ => panic!("expected a name reply"),
    }
}

#[test]
fn empty_name_reply_round_trip() {
    let mut buf = FrameBuffer::new();
    buf.feed(&encode_reply(&Reply::Name(vec![])));
    match buf.take_reply(CmdKind::Identify) {
        ReplyIn::Ready(Reply::Name(n)) => assert!(n.is_empty()),
        _ => panic!("expected a name reply"),
    }
}

#[test]
fn status_reply_round_trip_all_states() {
    for status in [WorkStatus::Idle, WorkStatus::Running, WorkStatus::Done] {
        let mut buf = FrameBuffer::new();
        buf.feed(&encode_reply(&Reply::StatusIs(status)));
        match buf.take_reply(CmdKind::Status) {
            ReplyIn::Ready(Reply::StatusIs(s)) => assert_eq!(s, status),
            _ => panic!("expected a status reply"),
        }
    }
}

#[test]
fn bad_status_byte_is_corrupt() {
    let mut buf = FrameBuffer::new();
    feed_all(&mut buf, &[3]);
    assert!(matches!(buf.take_reply(CmdKind::Status), ReplyIn::Corrupt));
}

#[test]
fn accept_reply_round_trip() {
    for flag in [true, false] {
        let mut buf = FrameBuffer::new();
        buf.feed(&encode_reply(&Reply::Accept(flag)));
        match buf.take_reply(CmdKind::SendData) {
            ReplyIn::Ready(Reply::Accept(b)) => assert_eq!(b, flag),
            _ => panic!("expected an accept reply"),
        }
    }
}

#[test]
fn result_reply_round_trip_large_value() {
    let value: u64 = 0xDEAD_BEEF_1234_5678;
    let mut buf = FrameBuffer::new();
    buf.feed(&encode_reply(&Reply::ResultIs(Some(value))));
    match buf.take_reply(CmdKind::RequestResult) {
        ReplyIn::Ready(Reply::ResultIs(Some(v))) => assert_eq!(v, value),
        _ => panic!("expected a result reply"),
    }
}

#[test]
fn result_reply_unavailable() {
    let mut buf = FrameBuffer::new();
    buf.feed(&encode_reply(&Reply::ResultIs(None)));
    assert!(matches!(buf.take_reply(CmdKind::RequestResult), ReplyIn::Ready(Reply::ResultIs(None))));
}

#[test]
fn result_reply_split_across_reads() {
    let bytes = encode_reply(&Reply::ResultIs(Some(26984457539)));
    let mut buf = FrameBuffer::new();
    feed_all(&mut buf, &bytes[..4]);
    assert!(matches!(buf.take_reply(CmdKind::RequestResult), ReplyIn::NeedMore));
    feed_all(&mut buf, &bytes[4..]);
    match buf.take_reply(CmdKind::RequestResult) {
        ReplyIn::Ready(Reply::ResultIs(Some(v))) => assert_eq!(v, 26984457539),
        _ => panic!("expected a result reply"),
    }
}

#[test]
fn result_wire_bytes_are_little_endian() {
    let bytes = encode_reply(&Reply::ResultIs(Some(0x0102_0304_0506_0708)));
    assert_eq!(bytes, vec![1, 0x08, 0x07, 0x06, 0x05, 0x04, 0x03, 0x02, 0x01]);
}

#[test]
fn send_data_wire_layout() {
    let bytes = encode_command(&Command::SendData(vec![2, 3, 8, 1]));
    assert_eq!(bytes, vec![0x03, 4, 2, 3, 8, 1]);
}

#[test]
fn opcode_wire_values() {
    assert_eq!(encode_command(&Command::Identify), vec![0x01]);
    assert_eq!(encode_command(&Command::Status), vec![0x02]);
    assert_eq!(encode_command(&Command::RequestResult), vec![0x04]);
}
