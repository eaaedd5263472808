//! End-to-end tests of the frame grammar, the message model, the
//! codec and the handshake state machine, on concrete byte buffers.

use stomp_core::codec::{ClientCodec, DecodeError};
use stomp_core::frame::{parse_frame, Command, Frame, ParseError, ParseOutcome};
use stomp_core::handshake::{
    connect_message, Handshake, HandshakeError, HandshakeEvent, HandshakeState,
};
use stomp_core::message::{
    subscribe, subscribe_with_headers, AckMode, FromServer, MapError, Message, ToServer,
};

fn hdr(name: &str, val: &str) -> (Vec<u8>, Vec<u8>) {
    (name.as_bytes().to_vec(), val.as_bytes().to_vec())
}

fn server_bytes(m: Message<FromServer>) -> Vec<u8> {
    let mut out = Vec::new();
    m.to_frame().serialize(&mut out);
    out
}

#[test]
fn serialize_send_exact_bytes() {
    let m = Message {
        content: ToServer::Send {
            destination: b"/queue/a".to_vec(),
            headers: vec![],
            body: Some(b"hello queue a".to_vec()),
        },
        extra_headers: vec![],
    };
    let mut out = Vec::new();
    m.to_frame().serialize(&mut out);
    let expected = b"SEND\ndestination:/queue/a\ncontent-length:13\n\nhello queue a\x00";
    assert_eq!(out, expected.to_vec());
}

#[test]
fn round_trip_send_with_duplicates_and_escapes() {
    let m = Message {
        content: ToServer::Send {
            destination: b"/queue/a".to_vec(),
            headers: vec![
                hdr("foo", "one"),
                hdr("foo", "two"),
                hdr("weird", "a:b\\c\nd\re"),
            ],
            body: Some(b"payload".to_vec()),
        },
        extra_headers: vec![],
    };
    let mut bytes = Vec::new();
    let expected = Message {
        content: ToServer::Send {
            destination: b"/queue/a".to_vec(),
            headers: vec![
                hdr("foo", "one"),
                hdr("foo", "two"),
                hdr("weird", "a:b\\c\nd\re"),
            ],
            body: Some(b"payload".to_vec()),
        },
        extra_headers: vec![],
    };
    m.to_frame().serialize(&mut bytes);
    let (frame, used) = match parse_frame(&bytes) {
        ParseOutcome::Complete(f, u) => (f, u),
        other => panic!("expected a complete frame, got {:?}", other),
    };
    assert_eq!(used, bytes.len());
    let back = Message::<ToServer>::from_frame(frame).expect("mapping failed");
    assert_eq!(back, expected);
}

#[test]
fn round_trip_connect_with_heartbeat() {
    let m = connect_message(
        b"example.com".to_vec(),
        Some(b"user".to_vec()),
        Some(b"secret".to_vec()),
        vec![hdr("x-extra", "1")],
    );
    let mut bytes = Vec::new();
    m.to_frame().serialize(&mut bytes);
    let frame = match parse_frame(&bytes) {
        ParseOutcome::Complete(f, u) => {
            assert_eq!(u, bytes.len());
            f
        },
        other => panic!("expected a complete frame, got {:?}", other),
    };
    let back = Message::<ToServer>::from_frame(frame).expect("mapping failed");
    match back.content {
        ToServer::Connect { accept_version, host, login, passcode, heartbeat, headers } => {
            assert_eq!(accept_version, b"1.2".to_vec());
            assert_eq!(host, b"example.com".to_vec());
            assert_eq!(login, Some(b"user".to_vec()));
            assert_eq!(passcode, Some(b"secret".to_vec()));
            assert_eq!(heartbeat, None);
            assert_eq!(headers, vec![hdr("x-extra", "1")]);
        },
        other => panic!("expected CONNECT, got {:?}", other),
    }
    // heart-beat header survives a frame-level round trip too
    let hb = Message {
        content: ToServer::Connect {
            accept_version: b"1.2".to_vec(),
            host: b"h".to_vec(),
            login: None,
            passcode: None,
            heartbeat: Some((10, 20)),
            headers: vec![],
        },
        extra_headers: vec![],
    };
    let hb_expected = Message {
        content: ToServer::Connect {
            accept_version: b"1.2".to_vec(),
            host: b"h".to_vec(),
            login: None,
            passcode: None,
            heartbeat: Some((10, 20)),
            headers: vec![],
        },
        extra_headers: vec![],
    };
    let mut hb_bytes = Vec::new();
    hb.to_frame().serialize(&mut hb_bytes);
    assert!(hb_bytes.windows(15).any(|w| w == b"heart-beat:10,2".as_slice()));
    let frame = match parse_frame(&hb_bytes) {
        ParseOutcome::Complete(f, _) => f,
        other => panic!("expected a complete frame, got {:?}", other),
    };
    assert_eq!(Message::<ToServer>::from_frame(frame).unwrap(), hb_expected);
}

#[test]
fn incremental_delivery_one_byte_at_a_time() {
    let m = Message {
        content: FromServer::Message {
            destination: b"/queue/a".to_vec(),
            message_id: b"m-1".to_vec(),
            subscription: b"s-1".to_vec(),
            headers: vec![],
            body: Some(b"chunk\x00with nul".to_vec()),
        },
        extra_headers: vec![],
    };
    let bytes = server_bytes(m);
    let codec = ClientCodec;
    let mut buf: Vec<u8> = Vec::new();
    let mut decoded = None;
    for (i, b) in bytes.iter().enumerate() {
        buf.push(*b);
        let before = buf.len();
        match codec.decode(&mut buf).expect("decode failed") {
            None => {
                assert_eq!(buf.len(), before, "no bytes may be consumed while incomplete");
                assert!(i + 1 < bytes.len(), "the full frame must decode");
            },
            Some(msg) => {
                assert_eq!(i + 1, bytes.len(), "decoded before the last byte arrived");
                assert!(buf.is_empty(), "exactly the frame's bytes must be consumed");
                decoded = Some(msg);
            },
        }
    }
    let msg = decoded.expect("nothing decoded");
    match msg.content {
        FromServer::Message { body, .. } => assert_eq!(body, Some(b"chunk\x00with nul".to_vec())),
        other => panic!("expected MESSAGE, got {:?}", other),
    }
}

#[test]
fn two_frames_in_one_buffer_decode_in_order() {
    let m1 = Message {
        content: FromServer::Receipt { receipt_id: b"r-1".to_vec(), headers: vec![] },
        extra_headers: vec![],
    };
    let m2 = Message {
        content: FromServer::Receipt { receipt_id: b"r-2".to_vec(), headers: vec![] },
        extra_headers: vec![],
    };
    let b1 = server_bytes(m1);
    let b2 = server_bytes(m2);
    let mut buf = b1.clone();
    buf.extend_from_slice(&b2);
    let codec = ClientCodec;
    let first = codec.decode(&mut buf).unwrap().expect("first frame");
    assert_eq!(buf, b2, "only the first frame's bytes may be consumed");
    match first.content {
        FromServer::Receipt { receipt_id, .. } => assert_eq!(receipt_id, b"r-1".to_vec()),
        other => panic!("expected RECEIPT, got {:?}", other),
    }
    let second = codec.decode(&mut buf).unwrap().expect("second frame");
    assert!(buf.is_empty());
    match second.content {
        FromServer::Receipt { receipt_id, .. } => assert_eq!(receipt_id, b"r-2".to_vec()),
        other => panic!("expected RECEIPT, got {:?}", other),
    }
}

#[test]
fn escaping_round_trips_colon_backslash_linebreak() {
    let value = "a:b\\c\nd";
    let m = Message {
        content: ToServer::Send {
            destination: b"/q".to_vec(),
            headers: vec![hdr("k", value)],
            body: None,
        },
        extra_headers: vec![],
    };
    let mut bytes = Vec::new();
    m.to_frame().serialize(&mut bytes);
    assert!(
        bytes.windows(10).any(|w| w == b"k:a\\cb\\\\c\\".as_slice()),
        "escapes must appear on the wire",
    );
    let frame = match parse_frame(&bytes) {
        ParseOutcome::Complete(f, _) => f,
        other => panic!("expected a complete frame, got {:?}", other),
    };
    let back = Message::<ToServer>::from_frame(frame).unwrap();
    match back.content {
        ToServer::Send { headers, .. } => assert_eq!(headers, vec![hdr("k", value)]),
        other => panic!("expected SEND, got {:?}", other),
    }
}

#[test]
fn handshake_success_on_connected() {
    let mut hs = Handshake::new();
    assert_eq!(hs.state, HandshakeState::Unauthenticated);
    let connect = hs.start(b"example.com".to_vec(), None, None, vec![]);
    assert_eq!(hs.state, HandshakeState::AwaitingConnected);
    let mut wire = Vec::new();
    connect.to_frame().serialize(&mut wire);
    assert!(wire.starts_with(b"CONNECT\naccept-version:1.2\nhost:example.com\n"));
    // the server replies CONNECTED with version 1.2
    let reply_bytes = server_bytes(Message {
        content: FromServer::Connected { version: b"1.2".to_vec(), headers: vec![] },
        extra_headers: vec![],
    });
    let mut buf = reply_bytes;
    let reply = ClientCodec.decode(&mut buf).unwrap().expect("a full reply");
    assert!(hs.on_event(HandshakeEvent::Received(reply)).is_ok());
    assert_eq!(hs.state, HandshakeState::Ready);
}

#[test]
fn handshake_rejected_on_error_frame() {
    let mut hs = Handshake::new();
    let _connect = hs.start(b"example.com".to_vec(), None, None, vec![]);
    let reply_bytes = server_bytes(Message {
        content: FromServer::Error {
            message: Some(b"denied".to_vec()),
            headers: vec![hdr("because", "policy")],
            body: None,
        },
        extra_headers: vec![],
    });
    let mut buf = reply_bytes;
    let reply = ClientCodec.decode(&mut buf).unwrap().expect("a full reply");
    match hs.on_event(HandshakeEvent::Received(reply)) {
        Err(HandshakeError::UnexpectedReply(m)) => match m.content {
            FromServer::Error { message, headers, .. } => {
                assert_eq!(message, Some(b"denied".to_vec()));
                assert_eq!(headers, vec![hdr("because", "policy")]);
            },
            other => panic!("the error must carry the reply, got {:?}", other),
        },
        other => panic!("expected an unexpected-reply failure, got {:?}", other),
    }
    assert_eq!(hs.state, HandshakeState::Failed);
}

#[test]
fn handshake_early_close_is_distinct() {
    let mut hs = Handshake::new();
    let _connect = hs.start(b"example.com".to_vec(), None, None, vec![]);
    match hs.on_event(HandshakeEvent::Closed) {
        Err(HandshakeError::ClosedBeforeResponse) => {},
        other => panic!("expected the closed-before-response error, got {:?}", other),
    }
    assert_eq!(hs.state, HandshakeState::Failed);
}

#[test]
fn handshake_decode_failure_carries_the_cause() {
    let mut hs = Handshake::new();
    let _connect = hs.start(b"h".to_vec(), None, None, vec![]);
    let cause = DecodeError::Parse(ParseError::UnknownCommand);
    match hs.on_event(HandshakeEvent::DecodeFailed(cause)) {
        Err(HandshakeError::Decode(e)) => assert_eq!(e, cause),
        other => panic!("expected a decode failure, got {:?}", other),
    }
}

#[test]
fn malformed_frame_missing_blank_line() {
    // NUL inside a header line: the blank-line separator never comes
    let mut buf = b"MESSAGE\ndestination:a\x00".to_vec();
    let orig = buf.clone();
    match ClientCodec.decode(&mut buf) {
        Err(DecodeError::Parse(ParseError::MissingTerminator)) => {},
        other => panic!("expected a grammar error, got {:?}", other),
    }
    assert_eq!(buf, orig, "a malformed buffer must not be partially consumed");
}

#[test]
fn unknown_command_is_a_parse_error() {
    let mut buf = b"FLY\n\n\x00".to_vec();
    match ClientCodec.decode(&mut buf) {
        Err(DecodeError::Parse(ParseError::UnknownCommand)) => {},
        other => panic!("expected unknown-command, got {:?}", other),
    }
}

#[test]
fn header_line_without_colon_is_invalid() {
    match parse_frame(b"SEND\nnocolonhere\n\n\x00") {
        ParseOutcome::Malformed(ParseError::InvalidHeaderLine) => {},
        other => panic!("expected invalid-header-line, got {:?}", other),
    }
}

#[test]
fn bad_escape_is_invalid() {
    match parse_frame(b"SEND\na:b\\zc\n\n\x00") {
        ParseOutcome::Malformed(ParseError::InvalidHeaderLine) => {},
        other => panic!("expected invalid-header-line, got {:?}", other),
    }
}

#[test]
fn bare_carriage_return_is_a_control_character() {
    match parse_frame(b"SEND\na:b\rc\n\n\x00") {
        ParseOutcome::Malformed(ParseError::ControlCharacter) => {},
        other => panic!("expected control-character, got {:?}", other),
    }
}

#[test]
fn incomplete_buffers_consume_nothing() {
    let cases: &[&[u8]] = &[
        b"",
        b"CONN",
        b"CONNECTED",
        b"CONNECTED\nversion:1.2",
        b"CONNECTED\nversion:1.2\n\n",
        b"MESSAGE\ndestination:a\nmessage-id:1\nsubscription:2\ncontent-length:5\n\nab",
    ];
    for case in cases {
        let mut buf = case.to_vec();
        let orig = buf.clone();
        match ClientCodec.decode(&mut buf) {
            Ok(None) => assert_eq!(buf, orig, "incomplete input must be retained whole"),
            other => panic!("expected incomplete for {:?}, got {:?}", case, other),
        }
    }
}

#[test]
fn leading_blank_lines_are_skipped() {
    let mut buf = b"\n\r\n\nRECEIPT\nreceipt-id:7\n\n\x00".to_vec();
    let msg = ClientCodec.decode(&mut buf).unwrap().expect("a full frame");
    assert!(buf.is_empty());
    match msg.content {
        FromServer::Receipt { receipt_id, .. } => assert_eq!(receipt_id, b"7".to_vec()),
        other => panic!("expected RECEIPT, got {:?}", other),
    }
}

#[test]
fn content_length_sized_body_may_hold_nul() {
    let mut buf =
        b"MESSAGE\ndestination:a\nmessage-id:1\nsubscription:2\ncontent-length:3\n\nx\x00y\x00"
            .to_vec();
    let msg = ClientCodec.decode(&mut buf).unwrap().expect("a full frame");
    assert!(buf.is_empty());
    match msg.content {
        FromServer::Message { body, headers, .. } => {
            assert_eq!(body, Some(b"x\x00y".to_vec()));
            assert!(headers.is_empty(), "the automatic content-length must be stripped");
        },
        other => panic!("expected MESSAGE, got {:?}", other),
    }
}

#[test]
fn non_integer_content_length_is_a_mapping_error() {
    let mut buf = b"RECEIPT\nreceipt-id:9\ncontent-length:abc\n\n\x00".to_vec();
    match ClientCodec.decode(&mut buf) {
        Err(DecodeError::Mapping(MapError::MalformedHeader)) => {},
        other => panic!("expected a malformed-header mapping error, got {:?}", other),
    }
}

#[test]
fn wrong_direction_command_is_a_mapping_error() {
    let mut buf = b"SEND\ndestination:a\n\n\x00".to_vec();
    match ClientCodec.decode(&mut buf) {
        Err(DecodeError::Mapping(MapError::WrongDirection)) => {},
        other => panic!("expected a wrong-direction mapping error, got {:?}", other),
    }
}

#[test]
fn missing_required_header_is_a_mapping_error() {
    let mut buf = b"CONNECTED\nserver:x\n\n\x00".to_vec();
    match ClientCodec.decode(&mut buf) {
        Err(DecodeError::Mapping(MapError::MissingHeader)) => {},
        other => panic!("expected a missing-header mapping error, got {:?}", other),
    }
}

#[test]
fn subscribe_builders_fill_the_fields() {
    let m = subscribe(b"/queue/a".to_vec(), b"sub-0".to_vec());
    assert_eq!(
        m,
        Message {
            content: ToServer::Subscribe {
                destination: b"/queue/a".to_vec(),
                id: b"sub-0".to_vec(),
                ack: None,
                headers: vec![],
            },
            extra_headers: vec![],
        },
    );
    let m2 = subscribe_with_headers(
        b"/queue/a".to_vec(),
        b"sub-0".to_vec(),
        vec![hdr("persistent", "true")],
    );
    match m2.content {
        ToServer::Subscribe { headers, .. } => {
            assert_eq!(headers, vec![hdr("persistent", "true")])
        },
        other => panic!("expected SUBSCRIBE, got {:?}", other),
    }
}

#[test]
fn ack_mode_round_trips_on_the_wire() {
    for (mode, spelling) in [
        (AckMode::Auto, &b"ack:auto\n"[..]),
        (AckMode::Client, &b"ack:client\n"[..]),
        (AckMode::ClientIndividual, &b"ack:client-individual\n"[..]),
    ] {
        let m = Message {
            content: ToServer::Subscribe {
                destination: b"/q".to_vec(),
                id: b"s".to_vec(),
                ack: Some(mode),
                headers: vec![],
            },
            extra_headers: vec![],
        };
        let mut bytes = Vec::new();
        m.to_frame().serialize(&mut bytes);
        assert!(bytes.windows(spelling.len()).any(|w| w == spelling));
        let frame = match parse_frame(&bytes) {
            ParseOutcome::Complete(f, _) => f,
            other => panic!("expected a complete frame, got {:?}", other),
        };
        match Message::<ToServer>::from_frame(frame).unwrap().content {
            ToServer::Subscribe { ack, .. } => assert_eq!(ack, Some(mode)),
            other => panic!("expected SUBSCRIBE, got {:?}", other),
        }
    }
}

#[test]
fn empty_body_and_no_body_are_distinguished() {
    let with_empty = Message {
        content: ToServer::Send {
            destination: b"/q".to_vec(),
            headers: vec![],
            body: Some(vec![]),
        },
        extra_headers: vec![],
    };
    let mut bytes = Vec::new();
    with_empty.to_frame().serialize(&mut bytes);
    assert!(bytes.windows(17).any(|w| w == b"content-length:0\n".as_slice()));
    let frame = match parse_frame(&bytes) {
        ParseOutcome::Complete(f, _) => f,
        other => panic!("expected a complete frame, got {:?}", other),
    };
    match Message::<ToServer>::from_frame(frame).unwrap().content {
        ToServer::Send { body, .. } => assert_eq!(body, Some(vec![])),
        other => panic!("expected SEND, got {:?}", other),
    }
    let without = Message {
        content: ToServer::Send { destination: b"/q".to_vec(), headers: vec![], body: None },
        extra_headers: vec![],
    };
    let mut bytes2 = Vec::new();
    without.to_frame().serialize(&mut bytes2);
    let frame2 = match parse_frame(&bytes2) {
        ParseOutcome::Complete(f, _) => f,
        other => panic!("expected a complete frame, got {:?}", other),
    };
    match Message::<ToServer>::from_frame(frame2).unwrap().content {
        ToServer::Send { body, .. } => assert_eq!(body, None),
        other => panic!("expected SEND, got {:?}", other),
    }
}

#[test]
fn first_duplicate_header_wins_and_all_are_kept() {
    let mut buf = b"CONNECTED\nversion:1.2\nversion:9.9\nfoo:bar\n\n\x00".to_vec();
    let msg = ClientCodec.decode(&mut buf).unwrap().expect("a full frame");
    match msg.content {
        FromServer::Connected { version, headers } => {
            assert_eq!(version, b"1.2".to_vec());
            assert_eq!(headers, vec![hdr("version", "9.9"), hdr("foo", "bar")]);
        },
        other => panic!("expected CONNECTED, got {:?}", other),
    }
}

#[test]
fn frame_type_is_usable_directly() {
    let f = Frame {
        command: Command::Begin,
        headers: vec![hdr("transaction", "tx1")],
        body: None,
    };
    let mut out = Vec::new();
    f.serialize(&mut out);
    assert_eq!(out, b"BEGIN\ntransaction:tx1\n\n\x00".to_vec());
    match parse_frame(&out) {
        ParseOutcome::Complete(f2, used) => {
            assert_eq!(used, out.len());
            assert_eq!(f2, Frame {
                command: Command::Begin,
                headers: vec![hdr("transaction", "tx1")],
                body: None,
            });
        },
        other => panic!("expected a complete frame, got {:?}", other),
    }
}
