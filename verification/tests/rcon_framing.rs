use blockdelete::rcon::{
    encode_packet, parse_packet_length, parse_packet_payload, auth_response_step, AuthStep,
    response_carries_payload, command_fits, CommandSession, SessionAction, RconError,
    TYPE_AUTH, TYPE_COMMAND, TYPE_AUX, MAX_COMMAND_BYTES,
};

#[test]
fn packet_round_trip_recovers_everything() {
    let body = "list players";
    let frame = encode_packet(7, TYPE_COMMAND, body.as_bytes());
    assert_eq!(frame.len(), body.len() + 14);
    let prefix: Vec<u8> = frame[0..4].to_vec();
    let length = parse_packet_length(&prefix).unwrap();
    assert_eq!(length, body.len() + 10);
    let rest: Vec<u8> = frame[4..].to_vec();
    assert_eq!(rest.len(), length);
    let packet = parse_packet_payload(&rest).unwrap();
    assert_eq!(packet.id, 7);
    assert_eq!(packet.kind, TYPE_COMMAND);
    assert_eq!(packet.body, body.as_bytes());
}

#[test]
fn packet_round_trip_auth_and_negative_id() {
    let frame = encode_packet(-1, TYPE_AUTH, b"SECRET-REDACTED");
    let rest: Vec<u8> = frame[4..].to_vec();
    let packet = parse_packet_payload(&rest).unwrap();
    assert_eq!(packet.id, -1);
    assert_eq!(packet.kind, TYPE_AUTH);
    assert_eq!(packet.body, b"SECRET-REDACTED");
}

#[test]
fn wire_layout_is_little_endian_with_terminator() {
    let frame = encode_packet(1, TYPE_COMMAND, b"a");
    // length 11, id 1, type 2, body "a", two zero bytes
    assert_eq!(
        frame,
        vec![11, 0, 0, 0, 1, 0, 0, 0, 2, 0, 0, 0, b'a', 0, 0]
    );
}

#[test]
fn insane_lengths_are_framing_errors() {
    let too_small = parse_packet_length(&vec![9, 0, 0, 0]);
    assert!(matches!(too_small, Err(RconError::InvalidLength(9))));
    // 2 MiB, little-endian
    let too_big = parse_packet_length(&vec![0, 0, 32, 0]);
    assert!(matches!(too_big, Err(RconError::InvalidLength(_))));
    let negative = parse_packet_length(&vec![0xff, 0xff, 0xff, 0xff]);
    assert!(matches!(negative, Err(RconError::InvalidLength(-1))));
    assert!(matches!(parse_packet_length(&vec![10, 0, 0, 0]), Ok(10)));
    assert!(parse_packet_payload(&vec![0u8; 9]).is_err());
}

#[test]
fn auth_handshake_decisions() {
    assert!(matches!(auth_response_step(TYPE_COMMAND, -1, 0), AuthStep::Failed));
    assert!(matches!(auth_response_step(TYPE_COMMAND, 0, 0), AuthStep::Ready));
    assert!(matches!(auth_response_step(TYPE_COMMAND, 5, 0), AuthStep::Continue));
    assert!(matches!(auth_response_step(TYPE_AUX, 0, 0), AuthStep::Continue));
    assert!(matches!(auth_response_step(TYPE_AUTH, 0, 0), AuthStep::Continue));
}

#[test]
fn response_reassembly_takes_payload_types_only() {
    assert!(response_carries_payload(TYPE_AUX));
    assert!(response_carries_payload(TYPE_COMMAND));
    assert!(!response_carries_payload(TYPE_AUTH));
    assert!(!response_carries_payload(42));
}

#[test]
fn command_ceiling() {
    assert!(command_fits("list"));
    let long = "x".repeat(MAX_COMMAND_BYTES);
    assert!(command_fits(&long));
    let too_long = "x".repeat(MAX_COMMAND_BYTES + 1);
    assert!(!command_fits(&too_long));
}

#[test]
fn command_session_retries_once_then_gives_up() {
    // cold start: connect, fail, connect again, fail, give up
    let mut s = CommandSession::start(false);
    assert!(matches!(s.next_action(), SessionAction::Connect));
    s.on_connect_err("no route".to_string());
    assert!(matches!(s.next_action(), SessionAction::Connect));
    s.on_connect_err("no route".to_string());
    assert!(matches!(s.next_action(), SessionAction::GiveUp));
    assert_eq!(s.surface_error(), "no route");
}

#[test]
fn command_session_reconnects_after_send_failure() {
    let mut s = CommandSession::start(true);
    assert!(matches!(s.next_action(), SessionAction::Send));
    s.on_send_err("broken pipe".to_string());
    assert!(matches!(s.next_action(), SessionAction::Connect));
    s.on_connect_ok();
    assert!(matches!(s.next_action(), SessionAction::Send));
}
