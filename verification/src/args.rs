//! The configuration surface: operating mode, display username and
//! protocol flag, as handed in by the command line.
use vstd::prelude::*;

verus! {

/// Arguments of the serving side: where to bind and listen.
pub struct ServerArgs {
    /// The port to listen on; `0` asks the OS for an ephemeral port.
    pub port: u16,
    /// The IP address to bind, as text.
    pub addr: String,
}

/// Arguments of the connecting side: the peer to reach.
pub struct ClientArgs {
    /// The peer's port.
    pub port: u16,
    /// The peer's IP address, as text.
    pub addr: String,
}

/// Whether this process accepts peers or connects to one.
pub enum Mode {
    Connect(ClientArgs),
    Serve(ServerArgs),
}

/// Everything the process is started with: a mode, the username shown to
/// the peer, and the choice between TCP and UDP.
pub struct NetchatArgs {
    pub mode: Mode,
    pub username: String,
    pub udp: bool,
}

impl Mode {
    /// The mode's name, as printed in the startup banner.
    pub fn as_str(&self) -> (r: &str)
        ensures
            self is Connect ==> r@ == "connect"@,
            self is Serve ==> r@ == "serve"@,
    {
        match self {
            Mode::Connect(_) => "connect",
            Mode::Serve(_) => "serve",
        }
    }

    pub fn is_connect(&self) -> (r: bool)
        ensures
            r == (self is Connect),
    {
        match self {
            Mode::Connect(_) => true,
            Mode::Serve(_) => false,
        }
    }
}

} // verus!
