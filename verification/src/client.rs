use vstd::prelude::*;

use crate::connection::{ConnView, Connection, Inbound};
use crate::errors::Fault;
use crate::frame;
use crate::handshake::{HandshakeState, HandshakeView};

verus! {

/// The client role of the transport: it connects, sends its own public
/// value as the first frame, takes the server's public value from the
/// first frame it receives, and from then on exchanges secure messages.
/// The socket, the key agreement and the cipher stay with the caller;
/// the client owns the per-connection protocol state.
pub struct Client3 {
    conn: Connection,
}

impl View for Client3 {
    type V = ConnView;

    closed spec fn view(&self) -> ConnView {
        self.conn@
    }
}

impl Client3 {
    /// The client's invariant.
    pub open spec fn inv(&self) -> bool {
        crate::handshake::hs_inv(self@.hs)
    }

    /// A fresh client session: no key yet, handshake not begun.
    pub fn new() -> (c: Client3)
        ensures
            c.inv(),
            c@.buf == Seq::<u8>::empty(),
            c@.hs == (HandshakeView {
                state: HandshakeState::AwaitingPeerPublicKey,
                peer_key_seen: false,
                key: None,
            }),
    {
        Client3 { conn: Connection::new() }
    }

    /// Frame the client's own public value, to be written to the socket
    /// before anything else.
    pub fn hello_frame(&self, public_value: &[u8]) -> (r: Result<Vec<u8>, Fault>)
        ensures
            (match r {
                Ok(m) => public_value@.len() + 4 <= u32::MAX && m@ == frame::frame_bytes(
                    public_value@,
                ),
                Err(f) => f == Fault::Protocol && public_value@.len() + 4 > u32::MAX,
            }),
    {
        if (public_value.len() as u64) > (u32::MAX as u64) - 4 {
            return Err(Fault::Protocol);
        }
        Ok(frame::serialize_frame(public_value))
    }

    /// Feed bytes read from the server; see `Connection::on_bytes`.
    pub fn handle_server(&mut self, chunk: &[u8]) -> (r: Result<Vec<Inbound>, Fault>)
        requires
            old(self).inv(),
        ensures
            final(self).inv(),
            ({
                let po = frame::parse_stream(old(self)@.buf + chunk@);
                final(self)@.buf == po.rest && if po.ok {
                    let ro = crate::connection::run_frames(old(self)@.hs, po.frames);
                    final(self)@.hs == ro.hs && (match r {
                        Ok(items) => ro.fault is None && items@.map_values(|i: Inbound| i@)
                            == ro.items,
                        Err(f) => ro.fault == Some(f),
                    })
                } else {
                    r == Err::<Vec<Inbound>, Fault>(Fault::Protocol) && final(self)@.hs
                        == (HandshakeView {
                        state: HandshakeState::Failed,
                        peer_key_seen: old(self)@.hs.peer_key_seen,
                        key: None,
                    })
                }
            }),
    {
        self.conn.on_bytes(chunk)
    }

    /// Install the session key derived from the exchange; write-once, see
    /// `Connection::install_key`.
    pub fn install_key(&mut self, key: Vec<u8>) -> (r: Result<(), Fault>)
        requires
            old(self).inv(),
        ensures
            final(self).inv(),
            final(self)@.buf == old(self)@.buf,
            (match r {
                Ok(()) => old(self)@.hs.state == HandshakeState::AwaitingPeerPublicKey && old(
                    self,
                )@.hs.peer_key_seen && key@.len() == crate::channel::MAC_TAG_LEN && final(self)@.hs
                    == (HandshakeView {
                    state: HandshakeState::Established,
                    peer_key_seen: true,
                    key: Some(key@),
                }),
                Err(f) => f == Fault::Protocol && final(self)@.hs == old(self)@.hs && !(old(
                    self,
                )@.hs.state == HandshakeState::AwaitingPeerPublicKey && old(self)@.hs.peer_key_seen
                    && key@.len() == crate::channel::MAC_TAG_LEN),
            }),
    {
        self.conn.install_key(key)
    }

    /// Serialize one outgoing secure message; see `Connection::seal`.
    pub fn seal(&self, ciphertext: &[u8], tag: &[u8]) -> (r: Result<Vec<u8>, Fault>)
        requires
            self.inv(),
        ensures
            (match r {
                Ok(m) => self@.hs.state == HandshakeState::Established && tag@.len()
                    == crate::channel::MAC_TAG_LEN && ciphertext@.len()
                    + crate::channel::MAC_TAG_LEN + 4 <= u32::MAX && m@ == frame::frame_bytes(
                    crate::channel::secure_message(ciphertext@, tag@),
                ),
                Err(f) => f == Fault::Protocol && !(self@.hs.state == HandshakeState::Established
                    && tag@.len() == crate::channel::MAC_TAG_LEN && ciphertext@.len()
                    + crate::channel::MAC_TAG_LEN + 4 <= u32::MAX),
            }),
    {
        self.conn.seal(ciphertext, tag)
    }

    /// Record a fatal transport fault; see `Connection::fail`.
    pub fn fail(&mut self)
        requires
            old(self).inv(),
        ensures
            final(self).inv(),
            final(self)@.buf == old(self)@.buf,
            final(self)@.hs == (HandshakeView {
                state: HandshakeState::Failed,
                peer_key_seen: old(self)@.hs.peer_key_seen,
                key: None,
            }),
    {
        self.conn.fail()
    }

    /// Current handshake state.
    pub fn state(&self) -> (s: HandshakeState)
        ensures
            s == self@.hs.state,
    {
        self.conn.state()
    }

    /// A copy of the session key, once established.
    pub fn session_key(&self) -> (r: Option<Vec<u8>>)
        ensures
            (match r {
                Some(k) => self@.hs.key == Some(k@),
                None => self@.hs.key is None,
            }),
    {
        self.conn.session_key()
    }
}

} // verus!
