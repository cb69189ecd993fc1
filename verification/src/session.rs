//! The session's decisions, as a state machine that performs no I/O itself.
//!
//! A session is `Handshaking` until both public values have crossed the wire,
//! `Active` while its outbound path runs, and `Closed` after that. The program
//! that owns the connection asks the session what to do, does it, and reports
//! what happened; the session answers with the next state and the next action.
//!
//! While the session is active two paths work side by side. The inbound path
//! turns each chunk read from the peer into text for the console; the outbound
//! path turns each line typed at the console into a chunk for the peer. Either
//! path may end while the other goes on: neither tells the other.

use crate::cipher::{lemma_transform_involution, transform, xor_cipher};
use crate::dh::{
    dh_compute_secret, dh_generate_keypair, dh_public, dh_public_key, dh_secret,
    lemma_dh_values_fit, lemma_shared_secret_agrees,
};
use crate::wire::{
    be_bytes, be_value, decode_public_key, encode_public_key, lemma_be_value_fits,
    lemma_decode_encode,
};
use vstd::prelude::*;

verus! {

/// The largest chunk the inbound path asks the connection for in one read.
pub const INBOUND_CHUNK: usize = 512;

/// Which side of the connection a session is on.
#[derive(Clone, Copy, Debug, PartialEq, Eq, Structural)]
pub enum Role {
    /// The side that waits for the connection; it sends its public value
    /// first and reads the peer's second.
    Listener,
    /// The side that dials out; it reads the peer's public value first and
    /// sends its own second.
    Initiator,
}

/// Where a session stands in its life.
#[derive(Clone, Copy, Debug, PartialEq, Eq, Structural)]
pub enum Phase {
    /// The public values are still being exchanged.
    Handshaking,
    /// The secret is agreed and the outbound path runs.
    Active,
    /// The handshake failed, or the outbound path has ended.
    Closed,
}

/// How a path came to its end.
#[derive(Clone, Copy, Debug, PartialEq, Eq, Structural)]
pub enum PathEnd {
    /// Its source ran dry: the peer shut down in order, or the console input
    /// ended.
    Finished,
    /// An I/O operation failed.
    Failed,
}

/// What the driver has to do next for the handshake.
#[derive(Debug, PartialEq, Eq)]
pub enum HandshakeAction {
    /// Write these eight bytes to the connection, then report
    /// [`Session::on_key_sent`] or [`Session::on_handshake_error`].
    SendPublicKey([u8; 8]),
    /// Read exactly eight bytes from the connection, then report
    /// [`Session::on_key_received`] or [`Session::on_handshake_error`].
    ReceivePublicKey,
    /// The handshake is over and this is the shared secret.
    Established(u64),
    /// The handshake failed; the session is closed for good.
    Abort,
}

/// What the driver has to do after an inbound read.
#[derive(Debug, PartialEq, Eq)]
pub enum InboundAction {
    /// Hand this tagged text to the console and read again.
    Deliver(Vec<u8>),
    /// Leave the inbound loop.
    Stop,
}

/// What the driver has to do with a line of console input.
#[derive(Debug, PartialEq, Eq)]
pub enum OutboundAction {
    /// Write all of these bytes to the connection, then read the next line.
    Send(Vec<u8>),
    /// Leave the outbound loop.
    Stop,
}

/// Something the driver can report to a session, as contracts see it.
pub enum SessionEvent {
    /// The local public value was written in full.
    KeySent,
    /// A read for the peer's public value came back with these bytes.
    KeyReceived(Seq<u8>),
    /// A read or write of the handshake failed.
    HandshakeError,
    /// An inbound read came back with these bytes (none: the peer shut down).
    InboundChunk(Seq<u8>),
    /// An inbound read failed.
    InboundError,
    /// The console input ended.
    InputEnd,
    /// A write to the peer, or a read from the console, failed.
    OutboundError,
}

/// The state of a session as contracts see it.
pub struct SessionModel {
    /// The side this session is on.
    pub role: Role,
    /// The local private exponent.
    pub private: u64,
    /// Whether the local public value has been written.
    pub sent: bool,
    /// The peer's public value, once it has been read.
    pub peer: Option<u64>,
    /// Whether the handshake failed.
    pub failed: bool,
    /// How the inbound path ended, if it has.
    pub inbound: Option<PathEnd>,
    /// How the outbound path ended, if it has.
    pub outbound: Option<PathEnd>,
}

/// The text the console gets for a chunk read from the peer: the marker `"> "`
/// and then the chunk deciphered in one run of the keystream.
pub open spec fn inbound_text(chunk: Seq<u8>, secret: u64) -> Seq<u8> {
    seq![0x3eu8, 0x20u8] + transform(chunk, secret)
}

/// The bytes the peer gets for a line typed at the console: the line and its
/// terminating newline, enciphered in one run of the keystream.
pub open spec fn outbound_frame(line: Seq<u8>, secret: u64) -> Seq<u8> {
    transform(line.push(0x0au8), secret)
}

impl SessionModel {
    /// A session that has done nothing yet.
    pub open spec fn start(role: Role, private: u64) -> SessionModel {
        SessionModel {
            role,
            private,
            sent: false,
            peer: None,
            failed: false,
            inbound: None,
            outbound: None,
        }
    }

    /// The local public value.
    pub open spec fn public(self) -> u64 {
        dh_public(self.private as nat) as u64
    }

    /// The handshake's next step is to write the local public value.
    pub open spec fn awaits_send(self) -> bool {
        !self.failed && !self.sent && (self.role == Role::Listener || self.peer.is_some())
    }

    /// The handshake's next step is to read the peer's public value.
    pub open spec fn awaits_receive(self) -> bool {
        !self.failed && self.peer.is_none() && (self.role == Role::Initiator || self.sent)
    }

    /// Both public values have crossed the wire.
    pub open spec fn established(self) -> bool {
        !self.failed && self.sent && self.peer.is_some()
    }

    /// The shared secret: there is one exactly when the session is
    /// established, and it is the peer's public value raised to the local
    /// private exponent.
    pub open spec fn secret(self) -> Option<u64> {
        if self.established() {
            Some(dh_secret(self.peer.unwrap() as nat, self.private as nat) as u64)
        } else {
            None
        }
    }

    /// The inbound path is at work.
    pub open spec fn inbound_running(self) -> bool {
        self.established() && self.inbound.is_none()
    }

    /// The outbound path is at work.
    pub open spec fn outbound_running(self) -> bool {
        self.established() && self.outbound.is_none()
    }

    /// The phase of the session.
    pub open spec fn phase(self) -> Phase {
        if self.failed {
            Phase::Closed
        } else if !self.established() {
            Phase::Handshaking
        } else if self.outbound.is_none() {
            Phase::Active
        } else {
            Phase::Closed
        }
    }

    /// The order in which the role exchanges the public values has been kept:
    /// a listener has read nothing before it has sent, an initiator has sent
    /// nothing before it has read.
    pub open spec fn well_ordered(self) -> bool {
        match self.role {
            Role::Listener => self.peer.is_some() ==> self.sent,
            Role::Initiator => self.sent ==> self.peer.is_some(),
        }
    }

    /// The state after the local public value was written. The report counts
    /// only while the handshake waits for that write.
    pub open spec fn after_key_sent(self) -> SessionModel {
        if self.awaits_send() {
            SessionModel { sent: true, ..self }
        } else {
            self
        }
    }

    /// The state after a read for the peer's public value returned `bytes`.
    /// Eight bytes are the peer's value; any other count fails the handshake.
    /// The report counts only while the handshake waits for that read.
    pub open spec fn after_key_received(self, bytes: Seq<u8>) -> SessionModel {
        if !self.awaits_receive() {
            self
        } else if bytes.len() == 8 {
            SessionModel { peer: Some(be_value(bytes) as u64), ..self }
        } else {
            SessionModel { failed: true, ..self }
        }
    }

    /// The state after a read or write of the handshake failed. The report
    /// counts only during the handshake.
    pub open spec fn after_handshake_error(self) -> SessionModel {
        if self.phase() == Phase::Handshaking {
            SessionModel { failed: true, ..self }
        } else {
            self
        }
    }

    /// The state after an inbound read returned `chunk`. An empty chunk ends
    /// the inbound path; any other leaves the state as it was.
    pub open spec fn after_inbound_chunk(self, chunk: Seq<u8>) -> SessionModel {
        if self.inbound_running() && chunk.len() == 0 {
            SessionModel { inbound: Some(PathEnd::Finished), ..self }
        } else {
            self
        }
    }

    /// The state after an inbound read failed: the inbound path has ended.
    pub open spec fn after_inbound_error(self) -> SessionModel {
        if self.inbound_running() {
            SessionModel { inbound: Some(PathEnd::Failed), ..self }
        } else {
            self
        }
    }

    /// The state after the console input ended: the outbound path has ended.
    pub open spec fn after_input_end(self) -> SessionModel {
        if self.outbound_running() {
            SessionModel { outbound: Some(PathEnd::Finished), ..self }
        } else {
            self
        }
    }

    /// The state after a write to the peer or a read from the console failed:
    /// the outbound path has ended.
    pub open spec fn after_outbound_error(self) -> SessionModel {
        if self.outbound_running() {
            SessionModel { outbound: Some(PathEnd::Failed), ..self }
        } else {
            self
        }
    }

    /// The state after any one event.
    pub open spec fn step(self, event: SessionEvent) -> SessionModel {
        match event {
            SessionEvent::KeySent => self.after_key_sent(),
            SessionEvent::KeyReceived(bytes) => self.after_key_received(bytes),
            SessionEvent::HandshakeError => self.after_handshake_error(),
            SessionEvent::InboundChunk(chunk) => self.after_inbound_chunk(chunk),
            SessionEvent::InboundError => self.after_inbound_error(),
            SessionEvent::InputEnd => self.after_input_end(),
            SessionEvent::OutboundError => self.after_outbound_error(),
        }
    }
}

/// The position of a phase in the order `Handshaking`, `Active`, `Closed`.
pub open spec fn phase_rank(phase: Phase) -> nat {
    match phase {
        Phase::Handshaking => 0,
        Phase::Active => 1,
        Phase::Closed => 2,
    }
}

/// No event moves a session back to an earlier phase, and nothing reopens a
/// closed session.
pub proof fn lemma_phase_only_advances(state: SessionModel, event: SessionEvent)
    ensures
        phase_rank(state.phase()) <= phase_rank(state.step(event).phase()),
        state.phase() == Phase::Closed ==> state.step(event).phase() == Phase::Closed,
{
}

/// A secret exists only once both public values have crossed the wire, and no
/// later event changes or removes it.
pub proof fn lemma_secret_is_set_once(state: SessionModel, event: SessionEvent)
    ensures
        state.secret().is_some() ==> state.sent && state.peer.is_some(),
        state.secret().is_some() ==> state.step(event).secret() == state.secret(),
{
}

/// What happens on the inbound path leaves the outbound path and the phase
/// untouched, and what happens on the outbound path leaves the inbound path
/// untouched.
pub proof fn lemma_paths_are_independent(state: SessionModel, event: SessionEvent)
    ensures
        (event is InboundChunk || event is InboundError) ==> {
            &&& state.step(event).outbound == state.outbound
            &&& state.step(event).outbound_running() == state.outbound_running()
            &&& state.step(event).phase() == state.phase()
        },
        (event is InputEnd || event is OutboundError) ==> {
            &&& state.step(event).inbound == state.inbound
            &&& state.step(event).inbound_running() == state.inbound_running()
        },
{
}

/// A session starts in the order its role prescribes and no event breaks it.
pub proof fn lemma_exchange_order_is_kept(
    role: Role,
    private: u64,
    state: SessionModel,
    event: SessionEvent,
)
    ensures
        SessionModel::start(role, private).well_ordered(),
        SessionModel::start(role, private).phase() == Phase::Handshaking,
        state.well_ordered() ==> state.step(event).well_ordered(),
{
}

/// A listener and an initiator that exchange their public values over the
/// wire both become active, and both hold the same secret, whatever private
/// exponents they drew.
pub proof fn lemma_peers_agree(listener_private: u64, initiator_private: u64)
    ensures
        ({
            let listener = SessionModel::start(Role::Listener, listener_private);
            let initiator = SessionModel::start(Role::Initiator, initiator_private);
            let listener_done = listener.after_key_sent().after_key_received(
                be_bytes(initiator.public()),
            );
            let initiator_done = initiator.after_key_received(
                be_bytes(listener.public()),
            ).after_key_sent();
            &&& listener_done.phase() == Phase::Active
            &&& initiator_done.phase() == Phase::Active
            &&& listener_done.secret().is_some()
            &&& listener_done.secret() == initiator_done.secret()
        }),
{
    let listener = SessionModel::start(Role::Listener, listener_private);
    let initiator = SessionModel::start(Role::Initiator, initiator_private);
    lemma_decode_encode(initiator.public());
    lemma_decode_encode(listener.public());
    lemma_dh_values_fit(0, listener_private as nat);
    lemma_dh_values_fit(0, initiator_private as nat);
    lemma_shared_secret_agrees(listener_private, initiator_private);
}

/// A line that one peer sends arrives at the other as the marker, the line
/// and its newline, provided the frame is read in one chunk and both hold the
/// same secret.
pub proof fn lemma_sent_line_is_delivered(line: Seq<u8>, secret: u64)
    ensures
        inbound_text(outbound_frame(line, secret), secret) == seq![0x3eu8, 0x20u8] + line.push(
            0x0au8,
        ),
{
    lemma_transform_involution(line.push(0x0au8), secret);
}

/// One side of an encrypted chat session.
pub struct Session {
    role: Role,
    private: u64,
    public: u64,
    sent: bool,
    peer: Option<u64>,
    failed: bool,
    secret: Option<u64>,
    inbound: Option<PathEnd>,
    outbound: Option<PathEnd>,
}

impl View for Session {
    type V = SessionModel;

    closed spec fn view(&self) -> SessionModel {
        SessionModel {
            role: self.role,
            private: self.private,
            sent: self.sent,
            peer: self.peer,
            failed: self.failed,
            inbound: self.inbound,
            outbound: self.outbound,
        }
    }
}

impl Session {
    /// The public value and the secret are kept beside the state they follow
    /// from, so that each is computed once.
    #[verifier::type_invariant]
    spec fn cached_values_are_current(self) -> bool {
        &&& self.public == self@.public()
        &&& self.secret == self@.secret()
    }

    /// Opens a session for `role` with the given private exponent.
    pub fn new(role: Role, private: u64) -> (session: Session)
        ensures
            session@ == SessionModel::start(role, private),
    {
        proof {
            lemma_dh_values_fit(0, private as nat);
        }
        Session {
            role,
            private,
            public: dh_public_key(private),
            sent: false,
            peer: None,
            failed: false,
            secret: None,
            inbound: None,
            outbound: None,
        }
    }

    /// Opens a session for `role` with a freshly drawn private exponent.
    pub fn start(role: Role) -> (session: Session)
        ensures
            session@ == SessionModel::start(role, session@.private),
    {
        let (private, public) = dh_generate_keypair();
        proof {
            lemma_dh_values_fit(0, private as nat);
        }
        Session {
            role,
            private,
            public,
            sent: false,
            peer: None,
            failed: false,
            secret: None,
            inbound: None,
            outbound: None,
        }
    }

    /// The phase the session is in.
    pub fn phase(&self) -> (phase: Phase)
        ensures
            phase == self@.phase(),
    {
        if self.failed {
            Phase::Closed
        } else if !self.sent || self.peer.is_none() {
            Phase::Handshaking
        } else if self.outbound.is_none() {
            Phase::Active
        } else {
            Phase::Closed
        }
    }

    /// The side this session is on.
    pub fn role(&self) -> (role: Role)
        ensures
            role == self@.role,
    {
        self.role
    }

    /// The local public value.
    pub fn public_key(&self) -> (public: u64)
        ensures
            public == self@.public(),
    {
        proof {
            use_type_invariant(self);
        }
        self.public
    }

    /// The shared secret, once the session is established.
    pub fn secret(&self) -> (secret: Option<u64>)
        ensures
            secret == self@.secret(),
    {
        proof {
            use_type_invariant(self);
        }
        self.secret
    }

    /// How the inbound path ended, if it has.
    pub fn inbound_end(&self) -> (end: Option<PathEnd>)
        ensures
            end == self@.inbound,
    {
        self.inbound
    }

    /// How the outbound path ended, if it has.
    pub fn outbound_end(&self) -> (end: Option<PathEnd>)
        ensures
            end == self@.outbound,
    {
        self.outbound
    }

    /// The next step of the handshake.
    ///
    /// Exactly one of the four answers fits any state: the two public values
    /// go out and come in in the order of the session's role, after which the
    /// answer is the secret for good; a failed handshake answers `Abort`.
    pub fn handshake_action(&self) -> (action: HandshakeAction)
        ensures
            match action {
                HandshakeAction::SendPublicKey(bytes) => self@.awaits_send() && bytes@ == be_bytes(
                    self@.public(),
                ),
                HandshakeAction::ReceivePublicKey => self@.awaits_receive(),
                HandshakeAction::Established(secret) => self@.secret() == Some(secret),
                HandshakeAction::Abort => self@.failed,
            },
    {
        proof {
            use_type_invariant(self);
        }
        if self.failed {
            return HandshakeAction::Abort;
        }
        match self.secret {
            Some(secret) => HandshakeAction::Established(secret),
            None => {
                let send_first = match self.role {
                    Role::Listener => true,
                    Role::Initiator => self.peer.is_some(),
                };
                if !self.sent && send_first {
                    HandshakeAction::SendPublicKey(encode_public_key(self.public))
                } else {
                    HandshakeAction::ReceivePublicKey
                }
            },
        }
    }

    /// Reports that the local public value was written in full.
    pub fn on_key_sent(&mut self)
        ensures
            final(self)@ == old(self)@.after_key_sent(),
    {
        proof {
            use_type_invariant(&*self);
        }
        let send_first = match self.role {
            Role::Listener => true,
            Role::Initiator => self.peer.is_some(),
        };
        if !self.failed && !self.sent && send_first {
            let secret = match self.peer {
                Some(peer) => {
                    proof {
                        lemma_dh_values_fit(peer as nat, self.private as nat);
                    }
                    Some(dh_compute_secret(peer, self.private))
                },
                None => None,
            };
            *self = Session { sent: true, secret, ..*self };
        }
    }

    /// Reports what a read for the peer's public value returned.
    ///
    /// Eight bytes are taken as the peer's value, most significant byte
    /// first. Any other count is a failed read and closes the session.
    pub fn on_key_received(&mut self, bytes: &[u8])
        ensures
            final(self)@ == old(self)@.after_key_received(bytes@),
    {
        proof {
            use_type_invariant(&*self);
        }
        let receive_first = match self.role {
            Role::Listener => self.sent,
            Role::Initiator => true,
        };
        if !self.failed && self.peer.is_none() && receive_first {
            match decode_public_key(bytes) {
                Some(peer) => {
                    proof {
                        lemma_be_value_fits(bytes@);
                        lemma_dh_values_fit(peer as nat, self.private as nat);
                    }
                    let secret = if self.sent {
                        Some(dh_compute_secret(peer, self.private))
                    } else {
                        None
                    };
                    *self = Session { peer: Some(peer), secret, ..*self };
                },
                None => {
                    *self = Session { failed: true, secret: None, ..*self };
                },
            }
        }
    }

    /// Reports that a read or write of the handshake failed.
    pub fn on_handshake_error(&mut self)
        ensures
            final(self)@ == old(self)@.after_handshake_error(),
    {
        proof {
            use_type_invariant(&*self);
        }
        if !self.failed && (!self.sent || self.peer.is_none()) {
            *self = Session { failed: true, secret: None, ..*self };
        }
    }

    /// Reports what an inbound read returned and says what to do with it.
    ///
    /// While the inbound path runs, a chunk that holds bytes is deciphered and
    /// comes back as text for the console, and an empty chunk ends the path.
    /// Once the path has ended, or before the session is established, the
    /// answer is `Stop` and nothing changes. The outbound path is never
    /// touched.
    pub fn on_inbound_chunk(&mut self, chunk: &[u8]) -> (action: InboundAction)
        ensures
            final(self)@ == old(self)@.after_inbound_chunk(chunk@),
            match action {
                InboundAction::Deliver(text) => {
                    &&& old(self)@.inbound_running()
                    &&& chunk@.len() > 0
                    &&& text@ == inbound_text(chunk@, old(self)@.secret().unwrap())
                },
                InboundAction::Stop => !(old(self)@.inbound_running() && chunk@.len() > 0),
            },
    {
        proof {
            use_type_invariant(&*self);
        }
        match (self.secret, self.inbound) {
            (Some(secret), None) => {
                if chunk.len() == 0 {
                    *self = Session { inbound: Some(PathEnd::Finished), ..*self };
                    InboundAction::Stop
                } else {
                    let mut text: Vec<u8> = Vec::new();
                    text.push(0x3e);
                    text.push(0x20);
                    let mut plain = xor_cipher(chunk, secret);
                    text.append(&mut plain);
                    assert(text@ =~= inbound_text(chunk@, secret));
                    InboundAction::Deliver(text)
                }
            },
            _ => InboundAction::Stop,
        }
    }

    /// Reports that an inbound read failed and says what to do about it:
    /// always `Stop`. The inbound path ends quietly; the outbound path is not
    /// touched.
    pub fn on_inbound_error(&mut self) -> (action: InboundAction)
        ensures
            final(self)@ == old(self)@.after_inbound_error(),
            action is Stop,
    {
        proof {
            use_type_invariant(&*self);
        }
        if self.secret.is_some() && self.inbound.is_none() {
            *self = Session { inbound: Some(PathEnd::Failed), ..*self };
        }
        InboundAction::Stop
    }

    /// Says what to write to the peer for a line typed at the console.
    ///
    /// `line` is the line without its terminator. While the outbound path runs
    /// the answer is the line and a newline, enciphered as one buffer. Once the
    /// path has ended, or before the session is established, the answer is
    /// `Stop`.
    pub fn on_line(&self, line: &[u8]) -> (action: OutboundAction)
        ensures
            match action {
                OutboundAction::Send(frame) => {
                    &&& self@.outbound_running()
                    &&& frame@ == outbound_frame(line@, self@.secret().unwrap())
                },
                OutboundAction::Stop => !self@.outbound_running(),
            },
    {
        proof {
            use_type_invariant(self);
        }
        match (self.secret, self.outbound) {
            (Some(secret), None) => {
                let mut framed: Vec<u8> = Vec::new();
                framed.extend_from_slice(line);
                framed.push(0x0a);
                assert(framed@ =~= line@.push(0x0au8));
                OutboundAction::Send(xor_cipher(framed.as_slice(), secret))
            },
            _ => OutboundAction::Stop,
        }
    }

    /// Reports that the console input ended. The outbound path ends; the
    /// inbound path is not touched.
    pub fn on_input_end(&mut self)
        ensures
            final(self)@ == old(self)@.after_input_end(),
    {
        proof {
            use_type_invariant(&*self);
        }
        if self.secret.is_some() && self.outbound.is_none() {
            *self = Session { outbound: Some(PathEnd::Finished), ..*self };
        }
    }

    /// Reports that a write to the peer, or a read from the console, failed.
    /// The outbound path ends; the inbound path is not touched.
    pub fn on_outbound_error(&mut self)
        ensures
            final(self)@ == old(self)@.after_outbound_error(),
    {
        proof {
            use_type_invariant(&*self);
        }
        if self.secret.is_some() && self.outbound.is_none() {
            *self = Session { outbound: Some(PathEnd::Failed), ..*self };
        }
    }
}

} // verus!
