use netchat::binder::{
    bind_report_consistent, bind_target, peer_target, resolve_addr, transport_of, Transport,
};
use netchat::{ClientArgs, HostPort, Mode, NetchatArgs, ServerArgs};

fn hp(a: u8, b: u8, c: u8, d: u8, port: u16) -> HostPort {
    HostPort { a, b, c, d, port }
}

#[test]
fn a_client_binds_an_ephemeral_local_port() {
    let args = NetchatArgs {
        mode: Mode::Connect(ClientArgs { port: 4000, addr: "10.0.0.9".to_string() }),
        username: "bob".to_string(),
        udp: false,
    };
    assert_eq!(bind_target(&args).unwrap(), hp(127, 0, 0, 1, 0));
}

#[test]
fn a_server_binds_what_it_was_given() {
    let args = NetchatArgs {
        mode: Mode::Serve(ServerArgs { port: 5555, addr: "127.0.0.1".to_string() }),
        username: "alice".to_string(),
        udp: false,
    };
    assert_eq!(bind_target(&args).unwrap(), hp(127, 0, 0, 1, 5555));
}

#[test]
fn a_malformed_server_address_is_a_hard_error() {
    let args = NetchatArgs {
        mode: Mode::Serve(ServerArgs { port: 1, addr: "not-an-address".to_string() }),
        username: "alice".to_string(),
        udp: false,
    };
    assert!(bind_target(&args).is_err());
}

#[test]
fn the_peer_target_joins_address_and_port() {
    let args = ClientArgs { port: 9999, addr: "192.168.0.5".to_string() };
    assert_eq!(peer_target(&args).unwrap(), hp(192, 168, 0, 5, 9999));
}

#[test]
fn a_malformed_peer_address_is_a_hard_error() {
    assert!(peer_target(&ClientArgs { port: 1, addr: "1.2.3".to_string() }).is_err());
    assert!(peer_target(&ClientArgs { port: 1, addr: "1.2.3.4.5".to_string() }).is_err());
}

#[test]
fn an_address_with_its_own_colon_is_rejected() {
    assert!(resolve_addr("1.2.3.4:5", 6).is_err());
}

#[test]
fn resolve_accepts_a_plain_host() {
    assert_eq!(resolve_addr("8.8.8.8", 53).unwrap(), hp(8, 8, 8, 8, 53));
}

#[test]
fn a_fixed_port_must_be_reported_exactly() {
    let requested = hp(127, 0, 0, 1, 5555);
    assert!(bind_report_consistent(&requested, &hp(127, 0, 0, 1, 5555)));
    assert!(!bind_report_consistent(&requested, &hp(127, 0, 0, 1, 5556)));
    assert!(!bind_report_consistent(&requested, &hp(127, 0, 0, 2, 5555)));
}

#[test]
fn an_ephemeral_request_must_come_back_nonzero() {
    let requested = hp(127, 0, 0, 1, 0);
    assert!(bind_report_consistent(&requested, &hp(127, 0, 0, 1, 49152)));
    assert!(!bind_report_consistent(&requested, &hp(127, 0, 0, 1, 0)));
}

#[test]
fn the_transport_is_tcp_unless_udp_was_asked_for() {
    let mut args = NetchatArgs {
        mode: Mode::Connect(ClientArgs { port: 1, addr: "1.2.3.4".to_string() }),
        username: "bob".to_string(),
        udp: false,
    };
    assert!(matches!(transport_of(&args), Transport::Tcp));
    args.udp = true;
    assert!(matches!(transport_of(&args), Transport::Udp));
}

#[test]
fn mode_reports_its_name() {
    let connect = Mode::Connect(ClientArgs { port: 1, addr: "1.2.3.4".to_string() });
    let serve = Mode::Serve(ServerArgs { port: 1, addr: "1.2.3.4".to_string() });
    assert_eq!(connect.as_str(), "connect");
    assert_eq!(serve.as_str(), "serve");
    assert!(connect.is_connect());
    assert!(!serve.is_connect());
}
