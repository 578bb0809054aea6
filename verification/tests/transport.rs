use dap_transport::frame::{encode_frame, decode_frame, FrameDecode, FrameError};
use dap_transport::message::{Message, Request, Response, Event, Payload, DecodeError,
    parse_message, serialize_message};
use dap_transport::correlator::Correlator;
use dap_transport::session::{Session, Inbound, FailureReason};

fn payload(text: &str) -> Payload {
    Payload::from_bytes(text.as_bytes().to_vec()).expect("valid payload text")
}

#[test]
fn frame_encode_decode_round_trip() {
    let body = b"{\"seq\":1,\"type\":\"request\",\"command\":\"ping\"}";
    let frame = encode_frame(body);
    match decode_frame(&frame, false) {
        FrameDecode::Frame(p, used) => {
            assert_eq!(p.as_slice(), body.as_slice());
            assert_eq!(used, frame.len());
        },
        other => panic!("expected a frame, got {:?}", other),
    }
}

#[test]
fn frame_unknown_headers_ignored() {
    let bytes = b"X-Trace: abc\r\nContent-Length: 2\r\nX-Other: 1\r\n\r\nhi";
    match decode_frame(bytes, false) {
        FrameDecode::Frame(p, used) => {
            assert_eq!(p.as_slice(), b"hi".as_slice());
            assert_eq!(used, bytes.len());
        },
        other => panic!("expected a frame, got {:?}", other),
    }
}

#[test]
fn frame_missing_length_is_framing_error() {
    let bytes = b"X-Other: 1\r\n\r\nhi";
    match decode_frame(bytes, false) {
        FrameDecode::Fail(FrameError::Framing) => {},
        other => panic!("expected a framing error, got {:?}", other),
    }
}

#[test]
fn frame_header_line_without_colon_is_skipped() {
    let bytes = b"garbage line\r\nContent-Length: 2\r\n\r\nhi";
    match decode_frame(bytes, false) {
        FrameDecode::Frame(p, used) => {
            assert_eq!(p.as_slice(), b"hi".as_slice());
            assert_eq!(used, bytes.len());
        },
        other => panic!("expected a frame, got {:?}", other),
    }
}

#[test]
fn frame_non_integer_length_is_framing_error() {
    let bytes = b"Content-Length: abc\r\n\r\n";
    match decode_frame(bytes, false) {
        FrameDecode::Fail(FrameError::Framing) => {},
        other => panic!("expected a framing error, got {:?}", other),
    }
}

#[test]
fn frame_duplicate_length_is_framing_error() {
    let bytes = b"Content-Length: 2\r\nContent-Length: 2\r\n\r\nhi";
    match decode_frame(bytes, false) {
        FrameDecode::Fail(FrameError::Framing) => {},
        other => panic!("expected a framing error, got {:?}", other),
    }
}

#[test]
fn frame_needs_more_bytes_while_stream_open() {
    let bytes = b"Content-Length: 50\r\n\r\nonly thirty bytes of the body.";
    match decode_frame(bytes, false) {
        FrameDecode::NeedMore => {},
        other => panic!("expected to wait for more bytes, got {:?}", other),
    }
}

#[test]
fn frame_clean_end_of_stream() {
    match decode_frame(b"", true) {
        FrameDecode::End => {},
        other => panic!("expected a clean end, got {:?}", other),
    }
}

// A stream that advertises fifty body bytes but ends after thirty is a
// truncation, and closing the session fails every outstanding request.
#[test]
fn truncated_frame_fails_all_pending() {
    let bytes = b"Content-Length: 50\r\n\r\nonly thirty bytes of the body.";
    match decode_frame(bytes, true) {
        FrameDecode::Fail(FrameError::Truncation) => {},
        other => panic!("expected a truncation error, got {:?}", other),
    }
    let mut s = Session::new();
    let (_f1, seq1) = s.send_request(String::from("launch"), None, 10);
    let (_f2, seq2) = s.send_request(String::from("threads"), None, 11);
    let failed = s.close();
    assert!(!s.is_open());
    assert_eq!(failed.len(), 2);
    let mut seqs: Vec<i64> = failed.iter().map(|(pr, _)| pr.seq).collect();
    seqs.sort();
    assert_eq!(seqs, vec![seq1, seq2]);
    for (_, reason) in &failed {
        assert_eq!(*reason, FailureReason::Disconnect);
    }
    assert_eq!(s.outstanding(), 0);
}

#[test]
fn message_round_trip_request_without_arguments() {
    let m = Message::Request(Request { seq: 1, command: String::from("ping"), arguments: None });
    let wire = serialize_message(&m);
    assert_eq!(
        wire.as_slice(),
        b"{\"seq\":1,\"type\":\"request\",\"command\":\"ping\"}".as_slice(),
    );
    let back = parse_message(&wire).expect("round trip parses");
    assert_eq!(back, m);
}

#[test]
fn message_round_trip_request_with_arguments() {
    let m = Message::Request(Request {
        seq: 7,
        command: String::from("evaluate"),
        arguments: Some(payload("{\"expr\":\"a\\\"b\\\\c\",\"frames\":[1,2,null,true]}")),
    });
    let wire = serialize_message(&m);
    let back = parse_message(&wire).expect("round trip parses");
    assert_eq!(back, m);
}

#[test]
fn message_round_trip_response() {
    let m = Message::Response(Response {
        request_seq: 3,
        success: false,
        command: String::from("launch"),
        message: Some(String::from("no such program")),
        body: Some(payload("{\"detail\":42}")),
    });
    let wire = serialize_message(&m);
    let back = parse_message(&wire).expect("round trip parses");
    assert_eq!(back, m);
}

#[test]
fn message_round_trip_event() {
    let m = Message::Event(Event {
        seq: 9,
        event: String::from("stopped"),
        body: Some(payload("{\"reason\":\"breakpoint\",\"threadId\":1}")),
    });
    let wire = serialize_message(&m);
    let back = parse_message(&wire).expect("round trip parses");
    assert_eq!(back, m);
}

#[test]
fn serializer_output_is_json_for_serde() {
    let m = Message::Response(Response {
        request_seq: 5,
        success: true,
        command: String::from("threads"),
        message: None,
        body: Some(payload("{\"threads\":[{\"id\":1,\"name\":\"main\"}]}")),
    });
    let wire = serialize_message(&m);
    let v: serde_json::Value = serde_json::from_slice(&wire).expect("serde parses our output");
    assert_eq!(v.get("type").and_then(|x| x.as_str()), Some("response"));
    assert_eq!(v.get("request_seq").and_then(|x| x.as_i64()), Some(5));
    assert_eq!(v.get("success").and_then(|x| x.as_bool()), Some(true));
    assert_eq!(v.get("command").and_then(|x| x.as_str()), Some("threads"));
    assert!(v.get("message").is_none());
    assert_eq!(v["body"]["threads"][0]["id"].as_i64(), Some(1));
}

#[test]
fn parser_accepts_any_field_order_and_unknown_fields() {
    let wire = b"{\"seq\":1,\"type\":\"response\",\"request_seq\":1,\"success\":true,\"command\":\"ping\"}";
    match parse_message(wire) {
        Ok(Message::Response(r)) => {
            assert_eq!(r.request_seq, 1);
            assert!(r.success);
            assert_eq!(r.command, "ping");
            assert_eq!(r.message, None);
            assert!(r.body.is_none());
        },
        other => panic!("expected a response, got {:?}", other),
    }
}

#[test]
fn bogus_type_is_decode_error_and_session_goes_on() {
    let mut s = Session::new();
    match s.on_payload(b"{\"type\":\"bogus\",\"seq\":1}") {
        Inbound::Malformed(DecodeError::UnknownKind(k)) => assert_eq!(k, "bogus"),
        other => panic!("expected an unknown kind error, got {:?}", other),
    }
    assert!(s.is_open());
    match s.on_payload(b"{\"seq\":2,\"type\":\"event\",\"event\":\"stopped\"}") {
        Inbound::HandleEvent(e) => {
            assert_eq!(e.seq, 2);
            assert_eq!(e.event, "stopped");
        },
        other => panic!("expected an event, got {:?}", other),
    }
}

#[test]
fn parse_error_kinds() {
    assert_eq!(parse_message(b"not json"), Err(DecodeError::Syntax));
    assert_eq!(parse_message(b"{\"seq\":1,\"command\":\"a\"}"), Err(DecodeError::MissingField));
    assert_eq!(
        parse_message(b"{\"type\":\"request\",\"seq\":0,\"command\":\"a\"}"),
        Err(DecodeError::BadField),
    );
    assert_eq!(
        parse_message(b"{\"type\":\"request\",\"seq\":1,\"seq\":2,\"command\":\"a\"}"),
        Err(DecodeError::DuplicateField),
    );
    assert_eq!(
        parse_message(b"{\"type\":\"request\",\"seq\":\"x\",\"command\":\"a\"}"),
        Err(DecodeError::BadField),
    );
}

#[test]
fn unmatched_response_leaves_pending_untouched() {
    let mut c = Correlator::new();
    c.register(1, 100);
    c.register(2, 101);
    assert!(c.resolve(7).is_none());
    assert_eq!(c.outstanding(), 2);
    let pr = c.resolve(1).expect("still pending");
    assert_eq!(pr.seq, 1);
    assert_eq!(pr.created, 100);
    assert_eq!(c.outstanding(), 1);
}

#[test]
fn responses_resolve_in_any_order_and_only_once() {
    let mut c = Correlator::new();
    c.register(1, 0);
    c.register(2, 0);
    c.register(3, 0);
    assert_eq!(c.resolve(2).expect("match").seq, 2);
    assert_eq!(c.resolve(3).expect("match").seq, 3);
    assert!(c.resolve(2).is_none());
    assert_eq!(c.resolve(1).expect("match").seq, 1);
    assert_eq!(c.outstanding(), 0);
}

#[test]
fn expire_fails_only_one_request() {
    let mut s = Session::new();
    let (_f1, seq1) = s.send_request(String::from("a"), None, 0);
    let (_f2, seq2) = s.send_request(String::from("b"), None, 0);
    let (pr, reason) = s.expire_request(seq1).expect("was pending");
    assert_eq!(pr.seq, seq1);
    assert_eq!(reason, FailureReason::Timeout);
    assert!(s.is_open());
    assert_eq!(s.outstanding(), 1);
    assert!(s.expire_request(seq1).is_none());
    assert!(s.expire_request(seq2).is_some());
}

// Client sends a ping request; the server's response resolves the pending
// request for seq 1 with a success whose command is "ping".
#[test]
fn ping_request_response_scenario() {
    let mut client = Session::new();
    let mut server = Session::new();

    let (req_frame, seq) = client.send_request(String::from("ping"), None, 0);
    assert_eq!(seq, 1);
    assert_eq!(client.outstanding(), 1);

    let req_seq_on_server = match decode_frame(&req_frame, false) {
        FrameDecode::Frame(p, used) => {
            assert_eq!(used, req_frame.len());
            match server.on_payload(&p) {
                Inbound::HandleRequest(q) => {
                    assert_eq!(q.command, "ping");
                    q.seq
                },
                other => panic!("expected a request, got {:?}", other),
            }
        },
        other => panic!("expected a frame, got {:?}", other),
    };

    let resp_frame = server.send_response(req_seq_on_server, true, String::from("ping"), None, None);
    match decode_frame(&resp_frame, false) {
        FrameDecode::Frame(p, used) => {
            assert_eq!(used, resp_frame.len());
            match client.on_payload(&p) {
                Inbound::Resolved(pr, resp) => {
                    assert_eq!(pr.seq, 1);
                    assert!(resp.success);
                    assert_eq!(resp.command, "ping");
                },
                other => panic!("expected a resolution, got {:?}", other),
            }
        },
        other => panic!("expected a frame, got {:?}", other),
    }
    assert_eq!(client.outstanding(), 0);
}

#[test]
fn payload_rejects_bytes_that_are_not_one_value() {
    assert!(Payload::from_bytes(b"{\"a\":1} trailing".to_vec()).is_err());
    assert!(Payload::from_bytes(b"{\"a\":".to_vec()).is_err());
    assert!(Payload::from_bytes(b"[1,2,{\"a\":\"b\"}]".to_vec()).is_ok());
    assert!(Payload::from_bytes(b"null".to_vec()).is_ok());
}

#[test]
fn payload_rejects_invalid_utf8() {
    assert!(Payload::from_bytes(vec![34, 0xFF, 34]).is_err());
    assert!(Payload::from_bytes(vec![34, 0xC3, 0xA9, 34]).is_ok());
}

// Standard escapes in both directions: a message whose text holds newlines,
// tabs and quotes serializes to JSON a standard peer reads, and escaped
// wire input (including \uXXXX and a surrogate pair) decodes to the text.
#[test]
fn string_escapes_round_trip_and_parse() {
    let m = Message::Response(Response {
        request_seq: 2,
        success: false,
        command: String::from("evaluate"),
        message: Some(String::from("line one\nline\ttwo \"quoted\" \\slash\r")),
        body: None,
    });
    let wire = serialize_message(&m);
    let v: serde_json::Value = serde_json::from_slice(&wire).expect("standard JSON");
    assert_eq!(
        v.get("message").and_then(|x| x.as_str()),
        Some("line one\nline\ttwo \"quoted\" \\slash\r"),
    );
    let back = parse_message(&wire).expect("round trip parses");
    assert_eq!(back, m);

    let wire2 = b"{\"seq\":1,\"type\":\"event\",\"event\":\"out\\u0041\\n\\t\\u00e9\\uD83D\\uDE00\"}";
    match parse_message(wire2) {
        Ok(Message::Event(e)) => {
            assert_eq!(e.event, "outA\n\t\u{e9}\u{1F600}");
        },
        other => panic!("expected an event, got {:?}", other),
    }
    assert_eq!(
        parse_message(b"{\"seq\":1,\"type\":\"event\",\"event\":\"\\uD800 lone\"}"),
        Err(DecodeError::Syntax),
    );
    assert_eq!(
        parse_message(b"{\"seq\":1,\"type\":\"event\",\"event\":\"bad\\x\"}"),
        Err(DecodeError::Syntax),
    );
}

#[test]
fn control_characters_are_escaped_on_the_wire() {
    let m = Message::Event(Event {
        seq: 1,
        event: String::from("a\u{1}b"),
        body: None,
    });
    let wire = serialize_message(&m);
    assert!(wire.iter().all(|&b| b >= 32));
    let s = String::from_utf8(wire.clone()).unwrap();
    assert!(s.contains("\\u0001"));
    let back = parse_message(&wire).expect("round trip parses");
    assert_eq!(back, m);
}

#[test]
fn events_and_requests_share_one_counter() {
    let mut s = Session::new();
    let (_f, seq1) = s.send_request(String::from("a"), None, 0);
    let ev = s.send_event(String::from("stopped"), None);
    let (_f3, seq3) = s.send_request(String::from("b"), None, 0);
    assert_eq!(seq1, 1);
    assert_eq!(seq3, 3);
    match decode_frame(&ev, false) {
        FrameDecode::Frame(p, _) => match parse_message(&p) {
            Ok(Message::Event(e)) => assert_eq!(e.seq, 2),
            other => panic!("expected an event, got {:?}", other),
        },
        other => panic!("expected a frame, got {:?}", other),
    }
}
