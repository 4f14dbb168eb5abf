//! The duplex relay: the decisions of one chat session.  Local lines are
//! framed with the username prefix and sent to the peer; peer bytes are
//! passed to local output untouched; the first end-of-stream or error on
//! either direction tears the whole session down.
//!
//! The surrounding I/O loop performs the reads and writes and feeds each
//! outcome in as a [`RelayEvent`]; this keeps the session's behaviour a
//! pure function that can also be driven from in-memory streams.
use vstd::prelude::*;
use vstd::string::StringSliceAdditionalSpecFns;

verus! {

/// The bytes of one outbound wire message: `[username]: ` and then the
/// line exactly as typed, terminator included.
pub open spec fn spec_framed(username: Seq<u8>, line: Seq<u8>) -> Seq<u8> {
    seq![91u8] + username + seq![93u8, 58u8, 32u8] + line
}

/// Appends all of `src` to `out`.
pub(crate) fn push_all(out: &mut Vec<u8>, src: &[u8])
    ensures
        final(out)@ == old(out)@ + src@,
{
    let n = src.len();
    let mut i: usize = 0;
    while i < n
        invariant
            i <= n,
            n == src@.len(),
            out@ == old(out)@ + src@.subrange(0, i as int),
        decreases n - i,
    {
        out.push(src[i]);
        proof {
            assert(out@ =~= old(out)@ + src@.subrange(0, i + 1 as int));
        }
        i = i + 1;
    }
    proof {
        assert(out@ =~= old(out)@ + src@);
    }
}

/// Frames one line for the wire: `[username]: line`.
pub fn frame_line_bytes(username: &[u8], line: &[u8]) -> (r: Vec<u8>)
    ensures
        r@ == spec_framed(username@, line@),
{
    let mut out: Vec<u8> = Vec::new();
    out.push(91);
    push_all(&mut out, username);
    out.push(93);
    out.push(58);
    out.push(32);
    push_all(&mut out, line);
    proof {
        assert(out@ =~= spec_framed(username@, line@));
    }
    out
}

/// Frames one line for the wire under a username given as text.
pub fn frame_line(username: &str, line: &[u8]) -> (r: Vec<u8>)
    ensures
        r@ == spec_framed(username.spec_bytes(), line@),
{
    frame_line_bytes(username.as_bytes(), line)
}

/// One thing that can happen to a live session.
pub enum RelayEvent {
    /// A complete line read from local input, terminator included.
    LocalLine(Vec<u8>),
    /// Local input ended.
    LocalEof,
    /// A chunk of bytes received from the peer.
    PeerBytes(Vec<u8>),
    /// The peer closed the connection.
    PeerClosed,
    /// An I/O error on either direction.
    IoError,
}

/// What the relay does in response to one event.
pub enum RelayAction {
    /// Write these bytes to the peer and flush at once.
    SendToPeer(Vec<u8>),
    /// Write these bytes to local output, unmodified.
    WriteLocal(Vec<u8>),
    /// Tear the whole session down and close the channel.
    Terminate,
}

/// One session: the local username paired with one channel, alive until
/// either direction ends.
pub struct RelaySession {
    username: Vec<u8>,
    live: bool,
}

impl RelaySession {
    /// The username this session frames outbound lines with.
    pub closed spec fn username(self) -> Seq<u8> {
        self.username@
    }

    /// Whether both directions are still running.
    pub closed spec fn is_live(self) -> bool {
        self.live
    }

    /// Opens a session under the given display name.
    pub fn new(username: &str) -> (s: Self)
        ensures
            s.username() == username.spec_bytes(),
            s.is_live(),
    {
        let mut u: Vec<u8> = Vec::new();
        push_all(&mut u, username.as_bytes());
        RelaySession { username: u, live: true }
    }

    /// Whether both directions are still running.
    pub fn live(&self) -> (r: bool)
        ensures
            r == self.is_live(),
    {
        self.live
    }

    /// Handles one event.  While the session is live, a local line is sent
    /// framed, and peer bytes go to local output byte for byte; an
    /// end-of-stream or error on either direction terminates the session,
    /// and a terminated session emits nothing further.
    pub fn step(&mut self, event: &RelayEvent) -> (act: RelayAction)
        ensures
            final(self).username() == old(self).username(),
            final(self).is_live() == (old(self).is_live() && match event {
                RelayEvent::LocalLine(_) => true,
                RelayEvent::PeerBytes(_) => true,
                _ => false,
            }),
            !old(self).is_live() ==> act is Terminate,
            old(self).is_live() ==> match event {
                RelayEvent::LocalLine(l) => act matches RelayAction::SendToPeer(m) && m@
                    == spec_framed(old(self).username(), l@),
                RelayEvent::PeerBytes(b) => act matches RelayAction::WriteLocal(o) && o@ == b@,
                RelayEvent::LocalEof => act is Terminate,
                RelayEvent::PeerClosed => act is Terminate,
                RelayEvent::IoError => act is Terminate,
            },
    {
        if !self.live {
            return RelayAction::Terminate;
        }
        match event {
            RelayEvent::LocalLine(l) => RelayAction::SendToPeer(
                frame_line_bytes(self.username.as_slice(), l.as_slice()),
            ),
            RelayEvent::PeerBytes(b) => {
                let mut copy: Vec<u8> = Vec::new();
                push_all(&mut copy, b.as_slice());
                RelayAction::WriteLocal(copy)
            },
            RelayEvent::LocalEof => {
                self.live = false;
                RelayAction::Terminate
            },
            RelayEvent::PeerClosed => {
                self.live = false;
                RelayAction::Terminate
            },
            RelayEvent::IoError => {
                self.live = false;
                RelayAction::Terminate
            },
        }
    }
}

/// The acceptor loop's ruling on one accept outcome.
pub enum AcceptDecision {
    /// Start an independent relay session for the new connection and keep
    /// accepting: sessions never serialize on one another.
    StartSession,
    /// The accept failed: log it and keep accepting — a per-connection
    /// failure never stops the listener.
    LogAndContinue,
}

/// What the acceptor loop does with one accept outcome.
pub fn accept_decision(accepted: bool) -> (d: AcceptDecision)
    ensures
        accepted <==> d is StartSession,
        !accepted <==> d is LogAndContinue,
{
    if accepted {
        AcceptDecision::StartSession
    } else {
        AcceptDecision::LogAndContinue
    }
}

/// The whole session as a pure function of its event list: the bytes sent
/// to the peer, the bytes written to local output, and whether the session
/// was torn down.  The first terminating event ends it; nothing after one
/// is emitted.
pub open spec fn spec_session(u: Seq<u8>, events: Seq<RelayEvent>) -> (Seq<u8>, Seq<u8>, bool)
    decreases events.len(),
{
    if events.len() == 0 {
        (Seq::<u8>::empty(), Seq::<u8>::empty(), false)
    } else {
        match events.first() {
            RelayEvent::LocalLine(l) => {
                let rest = spec_session(u, events.drop_first());
                (spec_framed(u, l@) + rest.0, rest.1, rest.2)
            },
            RelayEvent::PeerBytes(b) => {
                let rest = spec_session(u, events.drop_first());
                (rest.0, b@ + rest.1, rest.2)
            },
            _ => (Seq::<u8>::empty(), Seq::<u8>::empty(), true),
        }
    }
}

/// What one session produced: the wire bytes sent to the peer, the bytes
/// put on local output, and whether it was torn down.
pub struct SessionLog {
    pub sent: Vec<u8>,
    pub printed: Vec<u8>,
    pub ended: bool,
}

/// Drives one whole session over an in-memory event list, so the relay's
/// behaviour can be exercised without a console or a socket.
pub fn run_session(username: &str, events: &Vec<RelayEvent>) -> (log: SessionLog)
    ensures
        log.sent@ == spec_session(username.spec_bytes(), events@).0,
        log.printed@ == spec_session(username.spec_bytes(), events@).1,
        log.ended == spec_session(username.spec_bytes(), events@).2,
{
    let ghost u = username.spec_bytes();
    let mut session = RelaySession::new(username);
    let mut sent: Vec<u8> = Vec::new();
    let mut printed: Vec<u8> = Vec::new();
    let n = events.len();
    proof {
        assert(events@.subrange(0, n as int) =~= events@);
    }
    let mut i: usize = 0;
    while i < n
        invariant
            i <= n,
            n == events@.len(),
            session.username() == u,
            ({
                let full = spec_session(u, events@);
                let rest = spec_session(u, events@.subrange(i as int, n as int));
                if session.is_live() {
                    full.0 == sent@ + rest.0 && full.1 == printed@ + rest.1 && full.2 == rest.2
                } else {
                    full.0 == sent@ && full.1 == printed@ && full.2 == true
                }
            }),
        decreases n - i,
    {
        let ghost pre = session;
        let ghost suffix = events@.subrange(i as int, n as int);
        let ghost rest1 = spec_session(u, events@.subrange(i + 1, n as int));
        proof {
            assert(suffix.first() == events@[i as int]);
            assert(suffix.drop_first() =~= events@.subrange(i + 1, n as int));
        }
        let ghost sent0 = sent@;
        let ghost printed0 = printed@;
        let act = session.step(&events[i]);
        match act {
            RelayAction::SendToPeer(m) => {
                push_all(&mut sent, m.as_slice());
                proof {
                    assert(sent@ =~= sent0 + m@);
                    assert(sent0 + (m@ + rest1.0) =~= (sent0 + m@) + rest1.0);
                }
            },
            RelayAction::WriteLocal(o) => {
                push_all(&mut printed, o.as_slice());
                proof {
                    assert(printed@ =~= printed0 + o@);
                    assert(printed0 + (o@ + rest1.1) =~= (printed0 + o@) + rest1.1);
                }
            },
            RelayAction::Terminate => {
                proof {
                    if pre.is_live() {
                        assert(sent0 + Seq::<u8>::empty() =~= sent0);
                        assert(printed0 + Seq::<u8>::empty() =~= printed0);
                    }
                }
            },
        }
        i = i + 1;
    }
    proof {
        assert(events@.subrange(n as int, n as int) =~= Seq::<RelayEvent>::empty());
        if session.is_live() {
            assert(sent@ + Seq::<u8>::empty() =~= sent@);
            assert(printed@ + Seq::<u8>::empty() =~= printed@);
        }
    }
    let ended = !session.live();
    SessionLog { sent, printed, ended }
}

/// The local lines a session forwards: those read before the first
/// terminating event, in order.
pub open spec fn local_lines(events: Seq<RelayEvent>) -> Seq<Seq<u8>>
    decreases events.len(),
{
    if events.len() == 0 {
        Seq::<Seq<u8>>::empty()
    } else {
        match events.first() {
            RelayEvent::LocalLine(l) => seq![l@] + local_lines(events.drop_first()),
            RelayEvent::PeerBytes(_) => local_lines(events.drop_first()),
            _ => Seq::<Seq<u8>>::empty(),
        }
    }
}

/// The peer chunks a session renders: those received before the first
/// terminating event, in order.
pub open spec fn peer_chunks(events: Seq<RelayEvent>) -> Seq<Seq<u8>>
    decreases events.len(),
{
    if events.len() == 0 {
        Seq::<Seq<u8>>::empty()
    } else {
        match events.first() {
            RelayEvent::LocalLine(_) => peer_chunks(events.drop_first()),
            RelayEvent::PeerBytes(b) => seq![b@] + peer_chunks(events.drop_first()),
            _ => Seq::<Seq<u8>>::empty(),
        }
    }
}

/// A sequence of byte chunks, joined in order.
pub open spec fn concat_chunks(chunks: Seq<Seq<u8>>) -> Seq<u8>
    decreases chunks.len(),
{
    if chunks.len() == 0 {
        Seq::<u8>::empty()
    } else {
        chunks.first() + concat_chunks(chunks.drop_first())
    }
}

/// The wire bytes of a whole outbound direction: every line framed under
/// the username, in order.
pub open spec fn spec_outbound_wire(u: Seq<u8>, lines: Seq<Seq<u8>>) -> Seq<u8>
    decreases lines.len(),
{
    if lines.len() == 0 {
        Seq::<u8>::empty()
    } else {
        spec_framed(u, lines.first()) + spec_outbound_wire(u, lines.drop_first())
    }
}

/// Everything a session sends to the peer is exactly its local lines up to
/// the first terminating event, each framed with the username prefix, in
/// the order they were typed.
pub proof fn lemma_session_sends_framed_lines(u: Seq<u8>, events: Seq<RelayEvent>)
    ensures
        spec_session(u, events).0 == spec_outbound_wire(u, local_lines(events)),
    decreases events.len(),
{
    if events.len() > 0 {
        match events.first() {
            RelayEvent::LocalLine(l) => {
                lemma_session_sends_framed_lines(u, events.drop_first());
                let lines = local_lines(events);
                assert(lines.first() == l@);
                assert(lines.drop_first() =~= local_lines(events.drop_first()));
            },
            RelayEvent::PeerBytes(_) => {
                lemma_session_sends_framed_lines(u, events.drop_first());
            },
            _ => {},
        }
    }
}

/// Everything a session writes to local output is exactly the peer's
/// chunks up to the first terminating event, byte for byte and in arrival
/// order — each chunk one atomic unit, never split or merged.
pub proof fn lemma_session_prints_peer_bytes(u: Seq<u8>, events: Seq<RelayEvent>)
    ensures
        spec_session(u, events).1 == concat_chunks(peer_chunks(events)),
    decreases events.len(),
{
    if events.len() > 0 {
        match events.first() {
            RelayEvent::LocalLine(_) => {
                lemma_session_prints_peer_bytes(u, events.drop_first());
            },
            RelayEvent::PeerBytes(b) => {
                lemma_session_prints_peer_bytes(u, events.drop_first());
                let chunks = peer_chunks(events);
                assert(chunks.first() == b@);
                assert(chunks.drop_first() =~= peer_chunks(events.drop_first()));
            },
            _ => {},
        }
    }
}

/// Where line `i`'s framed bytes start on the wire: after the framed bytes
/// of every earlier line.
pub open spec fn wire_offset(u: Seq<u8>, lines: Seq<Seq<u8>>, i: int) -> int
    decreases i,
{
    if i <= 0 {
        0
    } else {
        wire_offset(u, lines, i - 1) + spec_framed(u, lines[i - 1]).len()
    }
}

proof fn lemma_wire_offset_nonneg(u: Seq<u8>, lines: Seq<Seq<u8>>, i: int)
    ensures
        wire_offset(u, lines, i) >= 0,
    decreases i,
{
    if i > 0 {
        lemma_wire_offset_nonneg(u, lines, i - 1);
    }
}

proof fn lemma_wire_offset_drop(u: Seq<u8>, lines: Seq<Seq<u8>>, i: int)
    requires
        1 <= i <= lines.len(),
    ensures
        wire_offset(u, lines, i) == spec_framed(u, lines[0]).len() + wire_offset(
            u,
            lines.drop_first(),
            i - 1,
        ),
    decreases i,
{
    if i == 1 {
        assert(wire_offset(u, lines, 0) == 0);
        assert(wire_offset(u, lines.drop_first(), 0) == 0);
    } else {
        lemma_wire_offset_drop(u, lines, i - 1);
        assert(lines.drop_first()[i - 2] == lines[i - 1]);
    }
}

/// Lines keep their relative order on the wire: line `i` occupies the
/// slice that begins where the first `i` framed lines end, byte for byte.
pub proof fn lemma_outbound_in_order(u: Seq<u8>, lines: Seq<Seq<u8>>, i: int)
    requires
        0 <= i < lines.len(),
    ensures
        0 <= wire_offset(u, lines, i),
        wire_offset(u, lines, i) + spec_framed(u, lines[i]).len() <= spec_outbound_wire(
            u,
            lines,
        ).len(),
        spec_outbound_wire(u, lines).subrange(
            wire_offset(u, lines, i),
            wire_offset(u, lines, i) + spec_framed(u, lines[i]).len() as int,
        ) == spec_framed(u, lines[i]),
    decreases i,
{
    lemma_wire_offset_nonneg(u, lines, i);
    let w = spec_outbound_wire(u, lines);
    let f0 = spec_framed(u, lines[0]);
    let w1 = spec_outbound_wire(u, lines.drop_first());
    assert(lines.first() == lines[0]);
    assert(w == f0 + w1);
    if i == 0 {
        assert(w.subrange(0, f0.len() as int) =~= f0);
    } else {
        lemma_outbound_in_order(u, lines.drop_first(), i - 1);
        lemma_wire_offset_drop(u, lines, i);
        assert(lines.drop_first()[i - 1] == lines[i]);
        let off1 = wire_offset(u, lines.drop_first(), i - 1);
        let fi = spec_framed(u, lines[i]);
        assert(w.subrange(f0.len() + off1, f0.len() + off1 + fi.len() as int) =~= w1.subrange(
            off1,
            off1 + fi.len() as int,
        ));
    }
}

/// Every line typed before the session ended appears in the sent bytes
/// framed as `[username]: line`, byte for byte, at the offset where the
/// earlier framed lines end — so lines reach the peer in the order they
/// were typed.
pub proof fn lemma_session_line_placement(u: Seq<u8>, events: Seq<RelayEvent>, i: int)
    requires
        0 <= i < local_lines(events).len(),
    ensures
        ({
            let lines = local_lines(events);
            let sent = spec_session(u, events).0;
            &&& 0 <= wire_offset(u, lines, i)
            &&& wire_offset(u, lines, i) + spec_framed(u, lines[i]).len() <= sent.len()
            &&& sent.subrange(
                wire_offset(u, lines, i),
                wire_offset(u, lines, i) + spec_framed(u, lines[i]).len() as int,
            ) == spec_framed(u, lines[i])
        }),
{
    lemma_session_sends_framed_lines(u, events);
    lemma_outbound_in_order(u, local_lines(events), i);
}

/// Closing local input ends the session at once: the outbound direction
/// stops without emitting a partial line, nothing further is relayed in
/// either direction, and the session is torn down.
pub proof fn lemma_local_eof_tears_down(u: Seq<u8>, rest: Seq<RelayEvent>)
    ensures
        spec_session(u, seq![RelayEvent::LocalEof] + rest) == (
            Seq::<u8>::empty(),
            Seq::<u8>::empty(),
            true,
        ),
{
    let events = seq![RelayEvent::LocalEof] + rest;
    assert(events.len() >= 1);
    assert(events.first() == RelayEvent::LocalEof);
}

} // verus!

