//! The transport binder's decisions: turning configuration text into a
//! validated address.  The OS socket work around these functions — the
//! actual bind, listen and connect calls — is the caller's, which must
//! treat an `Err` here as a fatal startup error.
use vstd::prelude::*;
use vstd::string::StringSliceAdditionalSpecFns;
use vstd::utf8::encode_utf8;

use crate::addr::{dec_str, parse_host_port, push_dec, spec_format_host_port, HostPort};
use crate::args::{ClientArgs, Mode, NetchatArgs};
use crate::relay::push_all;

verus! {

/// The transport a session runs over.
pub enum Transport {
    /// A full-duplex byte stream; its read and write halves may be driven
    /// independently.
    Tcp,
    /// A single datagram socket shared by both directions; each datagram
    /// is relayed as one atomic unit.
    Udp,
}

/// The transport the configuration asks for: TCP unless UDP was opted in.
pub fn transport_of(args: &NetchatArgs) -> (t: Transport)
    ensures
        (t is Udp) <==> args.udp,
{
    if args.udp {
        Transport::Udp
    } else {
        Transport::Tcp
    }
}

/// The input text does not denote a literal IPv4 address and port.
/// Fatal to the process: the caller reports it and exits.
#[derive(Clone, Copy, PartialEq, Eq, Structural, Debug)]
pub struct AddressParseError;

/// The `addr:port` text that joining an address text with a port produces.
pub open spec fn spec_joined(addr: Seq<char>, port: u16) -> Seq<u8> {
    encode_utf8(addr) + seq![58u8] + dec_str(port as nat)
}

/// Joins an address text and a port into `addr:port` and parses the
/// whole.  Returns `Ok` exactly when that text is the canonical text of
/// an address, and then returns that address.
pub fn resolve_addr(addr: &str, port: u16) -> (r: Result<HostPort, AddressParseError>)
    ensures
        (r matches Ok(h) ==> spec_joined(addr@, port) == spec_format_host_port(h)),
        r is Err ==> forall|h: HostPort| spec_joined(addr@, port) != spec_format_host_port(h),
{
    let mut text: Vec<u8> = Vec::new();
    push_all(&mut text, addr.as_bytes());
    text.push(58);
    push_dec(port, &mut text);
    proof {
        assert(text@ =~= spec_joined(addr@, port));
    }
    match parse_host_port(text.as_slice()) {
        Some(h) => Ok(h),
        None => Err(AddressParseError),
    }
}

/// The address this process binds, by mode: a client binds any local
/// ephemeral port; a server binds exactly the address and port it was
/// given, rejecting text that is not a literal IPv4 address.
pub fn bind_target(args: &NetchatArgs) -> (r: Result<HostPort, AddressParseError>)
    ensures
        args.mode is Connect ==> r == Result::<HostPort, AddressParseError>::Ok(
            HostPort { a: 127, b: 0, c: 0, d: 1, port: 0 },
        ),
        (args.mode matches Mode::Serve(sa) ==> {
            &&& (r matches Ok(h) ==> spec_joined(sa.addr@, sa.port) == spec_format_host_port(h))
            &&& (r is Err ==> forall|h: HostPort| spec_joined(sa.addr@, sa.port)
                != spec_format_host_port(h))
        }),
{
    match &args.mode {
        Mode::Connect(_) => Ok(HostPort { a: 127, b: 0, c: 0, d: 1, port: 0 }),
        Mode::Serve(sa) => resolve_addr(sa.addr.as_str(), sa.port),
    }
}

/// Whether the local address the OS reports for a bound endpoint honours
/// the request: the same host, and the same port — unless port `0` asked
/// for an ephemeral port, in which case the assigned port must be a
/// concrete, nonzero one.  A caller that binds must fail rather than go on
/// when this is false: a silent mismatch is never acceptable.
pub fn bind_report_consistent(requested: &HostPort, reported: &HostPort) -> (r: bool)
    ensures
        r == ({
            &&& reported.a == requested.a
            &&& reported.b == requested.b
            &&& reported.c == requested.c
            &&& reported.d == requested.d
            &&& (if requested.port == 0 {
                reported.port != 0
            } else {
                reported.port == requested.port
            })
        }),
{
    reported.a == requested.a && reported.b == requested.b && reported.c == requested.c
        && reported.d == requested.d && (if requested.port == 0 {
        reported.port != 0
    } else {
        reported.port == requested.port
    })
}

/// The peer a client connects to: the address and port it was given,
/// rejecting text that is not a literal IPv4 address.
pub fn peer_target(args: &ClientArgs) -> (r: Result<HostPort, AddressParseError>)
    ensures
        (r matches Ok(h) ==> spec_joined(args.addr@, args.port) == spec_format_host_port(h)),
        r is Err ==> forall|h: HostPort| spec_joined(args.addr@, args.port)
            != spec_format_host_port(h),
{
    resolve_addr(args.addr.as_str(), args.port)
}

} // verus!
