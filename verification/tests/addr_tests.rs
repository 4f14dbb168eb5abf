use netchat::addr::{format_host_port, parse_host_port, parse_host_port_str};
use netchat::HostPort;

fn hp(a: u8, b: u8, c: u8, d: u8, port: u16) -> HostPort {
    HostPort { a, b, c, d, port }
}

#[test]
fn parses_a_plain_address() {
    assert_eq!(parse_host_port(b"127.0.0.1:8080"), Some(hp(127, 0, 0, 1, 8080)));
}

#[test]
fn parses_port_zero() {
    assert_eq!(parse_host_port(b"0.0.0.0:0"), Some(hp(0, 0, 0, 0, 0)));
}

#[test]
fn parses_the_extremes() {
    assert_eq!(
        parse_host_port(b"255.255.255.255:65535"),
        Some(hp(255, 255, 255, 255, 65535))
    );
}

#[test]
fn parses_from_str() {
    assert_eq!(parse_host_port_str("10.0.0.2:9000"), Some(hp(10, 0, 0, 2, 9000)));
}

#[test]
fn rejects_an_octet_over_255() {
    assert_eq!(parse_host_port(b"256.0.0.1:80"), None);
}

#[test]
fn rejects_a_port_over_65535() {
    assert_eq!(parse_host_port(b"1.2.3.4:65536"), None);
}

#[test]
fn rejects_too_few_octets() {
    assert_eq!(parse_host_port(b"1.2.3:80"), None);
}

#[test]
fn rejects_a_missing_port() {
    assert_eq!(parse_host_port(b"1.2.3.4"), None);
    assert_eq!(parse_host_port(b"1.2.3.4:"), None);
}

#[test]
fn rejects_leading_zeros() {
    assert_eq!(parse_host_port(b"01.2.3.4:80"), None);
    assert_eq!(parse_host_port(b"1.2.3.4:008"), None);
}

#[test]
fn rejects_trailing_garbage() {
    assert_eq!(parse_host_port(b"1.2.3.4:80x"), None);
    assert_eq!(parse_host_port(b"1.2.3.4:80 "), None);
}

#[test]
fn rejects_empty_and_noise() {
    assert_eq!(parse_host_port(b""), None);
    assert_eq!(parse_host_port(b"localhost:80"), None);
    assert_eq!(parse_host_port(b":80"), None);
}

#[test]
fn formats_canonically() {
    assert_eq!(format_host_port(&hp(127, 0, 0, 1, 0)), b"127.0.0.1:0".to_vec());
    assert_eq!(format_host_port(&hp(10, 20, 30, 40, 65535)), b"10.20.30.40:65535".to_vec());
}

#[test]
fn format_then_parse_gives_the_address_back() {
    for h in [
        hp(127, 0, 0, 1, 0),
        hp(0, 0, 0, 0, 1),
        hp(255, 255, 255, 255, 65535),
        hp(192, 168, 1, 7, 8080),
    ] {
        let text = format_host_port(&h);
        assert_eq!(parse_host_port(&text), Some(h));
    }
}

#[test]
fn parse_then_format_gives_the_text_back() {
    for text in [&b"127.0.0.1:0"[..], b"9.9.9.9:53", b"172.16.254.3:65000"] {
        let h = parse_host_port(text).unwrap();
        assert_eq!(format_host_port(&h), text.to_vec());
    }
}
