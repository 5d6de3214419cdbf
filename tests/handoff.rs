use lapce_app::handoff::{
    ack_bytes, decode_frame, encode_frame, is_ack, launch_step, server_step, LaunchAction,
    LaunchEvent, LaunchState, ServerAction, ServerEvent, ACK_TIMEOUT_MS,
};

fn open_paths_payload() -> Vec<u8> {
    br#"{"method":"open_paths","params":{"paths":[{"path":"a/b.rs","linecol":{"line":10,"column":4},"is_dir":false}]}}"#.to_vec()
}

#[test]
fn frame_round_trip_over_a_loopback() {
    let payload = open_paths_payload();
    let frame = encode_frame(&payload).unwrap();
    assert_eq!(frame.len(), payload.len() + 4);
    assert_eq!(&frame[..4], &(payload.len() as u32).to_be_bytes());
    // the wire: the client's frame, then whatever the client sends next
    let mut wire: Vec<u8> = frame.clone();
    wire.extend_from_slice(b"next");
    let (got, used) = decode_frame(&wire).unwrap();
    assert_eq!(got, payload);
    assert_eq!(used, frame.len());
    // the server answers on the same loopback
    let mut back: Vec<u8> = Vec::new();
    match server_step(ServerEvent::Message { open_paths: true }) {
        ServerAction::ForwardAndAck => back.extend_from_slice(&ack_bytes()),
        other => panic!("unexpected {:?}", other),
    }
    assert_eq!(back.len(), 8);
    assert!(is_ack(&back));
    assert_eq!(
        launch_step(LaunchState::Probing, LaunchEvent::Replied { ack: is_ack(&back) }),
        (LaunchState::HandedOff, LaunchAction::Exit)
    );
}

#[test]
fn partial_frames_wait_for_more() {
    let frame = encode_frame(&vec![1, 2, 3]).unwrap();
    assert_eq!(frame, vec![0, 0, 0, 3, 1, 2, 3]);
    assert_eq!(decode_frame(&frame[..2].to_vec()), None);
    assert_eq!(decode_frame(&frame[..6].to_vec()), None);
    assert_eq!(decode_frame(&frame), Some((vec![1, 2, 3], 7)));
    assert_eq!(decode_frame(&vec![0, 0, 0, 0]), Some((vec![], 4)));
}

#[test]
fn ack_is_exactly_received() {
    assert_eq!(ack_bytes(), b"received".to_vec());
    assert!(is_ack(b"received"));
    assert!(!is_ack(b"receive"));
    assert!(!is_ack(b"received!"));
    assert!(!is_ack(b"RECEIVED"));
    assert!(!is_ack(b""));
}

#[test]
fn no_listener_means_serving() {
    assert_eq!(
        launch_step(LaunchState::Unknown, LaunchEvent::Started { force_new: false }),
        (LaunchState::Unknown, LaunchAction::Connect)
    );
    assert_eq!(
        launch_step(LaunchState::Unknown, LaunchEvent::ConnectFailed),
        (LaunchState::RunningAsServer, LaunchAction::StartServer)
    );
}

#[test]
fn new_instance_skips_the_probe() {
    assert_eq!(
        launch_step(LaunchState::Unknown, LaunchEvent::Started { force_new: true }),
        (LaunchState::RunningAsServer, LaunchAction::StartServer)
    );
}

#[test]
fn failed_handshake_ends_without_a_window() {
    assert_eq!(
        launch_step(LaunchState::Unknown, LaunchEvent::Connected),
        (LaunchState::Probing, LaunchAction::SendPaths { timeout_ms: ACK_TIMEOUT_MS })
    );
    assert_eq!(ACK_TIMEOUT_MS, 500);
    for e in [
        LaunchEvent::TimedOut,
        LaunchEvent::TransportError,
        LaunchEvent::Replied { ack: false },
    ] {
        assert_eq!(launch_step(LaunchState::Probing, e), (LaunchState::Failed, LaunchAction::Exit));
    }
    assert_eq!(
        launch_step(LaunchState::HandedOff, LaunchEvent::ConnectFailed),
        (LaunchState::HandedOff, LaunchAction::Nothing)
    );
}

#[test]
fn server_handler_steps() {
    assert_eq!(server_step(ServerEvent::Message { open_paths: false }), ServerAction::AckOnly);
    assert_eq!(server_step(ServerEvent::ReadFailed), ServerAction::Stop);
    assert_eq!(server_step(ServerEvent::Closed), ServerAction::Stop);
}
