use netchat::relay::{
    accept_decision, frame_line, run_session, AcceptDecision, RelayEvent, RelaySession,
    RelayAction,
};

#[test]
fn frames_a_line_with_the_username_prefix() {
    assert_eq!(frame_line("bob", b"hello\n"), b"[bob]: hello\n".to_vec());
}

#[test]
fn frames_the_reply_too() {
    assert_eq!(frame_line("alice", b"hi\n"), b"[alice]: hi\n".to_vec());
}

#[test]
fn frames_an_empty_line() {
    assert_eq!(frame_line("bob", b"\n"), b"[bob]: \n".to_vec());
}

#[test]
fn lines_go_out_framed_and_in_order() {
    let events = vec![
        RelayEvent::LocalLine(b"one\n".to_vec()),
        RelayEvent::PeerBytes(b"x".to_vec()),
        RelayEvent::LocalLine(b"two\n".to_vec()),
    ];
    let log = run_session("u", &events);
    assert_eq!(log.sent, b"[u]: one\n[u]: two\n".to_vec());
    assert_eq!(log.printed, b"x".to_vec());
    assert!(!log.ended);
}

#[test]
fn local_eof_tears_the_session_down_without_output() {
    let events = vec![
        RelayEvent::LocalEof,
        RelayEvent::LocalLine(b"late\n".to_vec()),
        RelayEvent::PeerBytes(b"ignored".to_vec()),
    ];
    let log = run_session("bob", &events);
    assert_eq!(log.sent, b"".to_vec());
    assert_eq!(log.printed, b"".to_vec());
    assert!(log.ended);
}

#[test]
fn nothing_is_emitted_after_termination() {
    let events = vec![
        RelayEvent::LocalLine(b"one\n".to_vec()),
        RelayEvent::PeerClosed,
        RelayEvent::LocalLine(b"two\n".to_vec()),
    ];
    let log = run_session("u", &events);
    assert_eq!(log.sent, b"[u]: one\n".to_vec());
    assert!(log.ended);
}

#[test]
fn an_io_error_ends_the_session_like_a_close() {
    let events = vec![
        RelayEvent::PeerBytes(b"a".to_vec()),
        RelayEvent::IoError,
        RelayEvent::PeerBytes(b"b".to_vec()),
    ];
    let log = run_session("u", &events);
    assert_eq!(log.printed, b"a".to_vec());
    assert!(log.ended);
}

#[test]
fn a_datagram_is_relayed_as_one_atomic_unit() {
    let events = vec![RelayEvent::PeerBytes(b"[bob]: ping".to_vec())];
    let log = run_session("alice", &events);
    assert_eq!(log.printed, b"[bob]: ping".to_vec());
    assert_eq!(log.sent, b"".to_vec());
}

#[test]
fn peer_chunks_are_not_merged_or_reordered() {
    let events = vec![
        RelayEvent::PeerBytes(b"[bob]: ping".to_vec()),
        RelayEvent::PeerBytes(b"[bob]: pong".to_vec()),
    ];
    let log = run_session("alice", &events);
    assert_eq!(log.printed, b"[bob]: ping[bob]: pong".to_vec());
}

#[test]
fn the_whole_exchange_of_one_chat() {
    // The client types "hello"; what its peer must see is exactly the
    // framed line.  The server answers "hi" the same way.
    let client = run_session("bob", &vec![RelayEvent::LocalLine(b"hello\n".to_vec())]);
    assert_eq!(client.sent, b"[bob]: hello\n".to_vec());
    let server = run_session(
        "alice",
        &vec![
            RelayEvent::PeerBytes(client.sent.clone()),
            RelayEvent::LocalLine(b"hi\n".to_vec()),
        ],
    );
    assert_eq!(server.printed, b"[bob]: hello\n".to_vec());
    assert_eq!(server.sent, b"[alice]: hi\n".to_vec());
}

#[test]
fn a_session_steps_through_events() {
    let mut s = RelaySession::new("bob");
    match s.step(&RelayEvent::LocalLine(b"hey\n".to_vec())) {
        RelayAction::SendToPeer(m) => assert_eq!(m, b"[bob]: hey\n".to_vec()),
        _ => panic!("a local line must be sent to the peer"),
    }
    assert!(s.live());
    match s.step(&RelayEvent::PeerClosed) {
        RelayAction::Terminate => {}
        _ => panic!("a peer close must terminate the session"),
    }
    assert!(!s.live());
    match s.step(&RelayEvent::LocalLine(b"late\n".to_vec())) {
        RelayAction::Terminate => {}
        _ => panic!("a dead session must emit nothing"),
    }
}

#[test]
fn two_sequential_sessions_are_independent() {
    // A relay failure tears only its own session down; the acceptor keeps
    // accepting and the next session runs untouched.
    let first = run_session("srv", &vec![
        RelayEvent::PeerBytes(b"boom".to_vec()),
        RelayEvent::IoError,
    ]);
    assert!(first.ended);
    assert!(matches!(accept_decision(true), AcceptDecision::StartSession));
    let second = run_session("srv", &vec![
        RelayEvent::PeerBytes(b"ok".to_vec()),
        RelayEvent::LocalLine(b"fine\n".to_vec()),
    ]);
    assert_eq!(second.printed, b"ok".to_vec());
    assert_eq!(second.sent, b"[srv]: fine\n".to_vec());
    assert!(!second.ended);
}

#[test]
fn a_failed_accept_only_logs_and_continues() {
    assert!(matches!(accept_decision(false), AcceptDecision::LogAndContinue));
    assert!(matches!(accept_decision(true), AcceptDecision::StartSession));
}
