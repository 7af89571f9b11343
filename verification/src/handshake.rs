use vstd::prelude::*;

use crate::errors::Fault;

verus! {

/// Progress of the one-time key exchange on a connection. The handshake
/// runs exactly once: the first frame each peer receives carries the other
/// side's public value, and only a key derived from it moves the
/// connection to `Established`. `Failed` is terminal.
#[derive(Clone, Copy, Debug, PartialEq, Eq, Structural)]
pub enum HandshakeState {
    AwaitingPeerPublicKey,
    Established,
    Failed,
}

/// Ghost image of a handshake coordinator.
pub struct HandshakeView {
    pub state: HandshakeState,
    pub peer_key_seen: bool,
    pub key: Option<Seq<u8>>,
}

/// Drives the key exchange of one connection: it takes the peer's public
/// value exactly once, accepts the derived session key exactly once, and
/// is the sole authority on whether secure messages may flow.
///
/// Key agreement and key derivation themselves are outside collaborators;
/// the coordinator owns only the ordering and the write-once key cell.
pub struct Handshake {
    state: HandshakeState,
    peer_key_seen: bool,
    key: Option<Vec<u8>>,
}

impl View for Handshake {
    type V = HandshakeView;

    closed spec fn view(&self) -> HandshakeView {
        HandshakeView {
            state: self.state,
            peer_key_seen: self.peer_key_seen,
            key: match self.key {
                Some(k) => Some(k@),
                None => None,
            },
        }
    }
}

/// A session key is always exactly 32 bytes.
pub const SESSION_KEY_LEN: usize = 32;

/// The coordinator's invariant: the key cell is filled exactly when the
/// connection is established, holds 32 bytes, and is only ever filled
/// after the peer's public value arrived.
pub open spec fn hs_inv(h: HandshakeView) -> bool {
    &&& (h.state == HandshakeState::Established <==> h.key is Some)
    &&& (h.key matches Some(k) ==> k.len() == SESSION_KEY_LEN)
    &&& (h.state == HandshakeState::Established ==> h.peer_key_seen)
}

impl Handshake {
    /// The coordinator's invariant, over its ghost image.
    pub open spec fn inv(&self) -> bool {
        hs_inv(self@)
    }

    /// A fresh coordinator: nothing seen, no key.
    pub fn new() -> (h: Handshake)
        ensures
            h.inv(),
            h@.state == HandshakeState::AwaitingPeerPublicKey,
            !h@.peer_key_seen,
            h@.key is None,
    {
        Handshake { state: HandshakeState::AwaitingPeerPublicKey, peer_key_seen: false, key: None }
    }

    /// Note that the peer's public value has arrived. Called for the first
    /// frame of a connection, and never again.
    pub fn note_peer_key(&mut self)
        requires
            old(self).inv(),
            old(self)@.state == HandshakeState::AwaitingPeerPublicKey,
            !old(self)@.peer_key_seen,
        ensures
            final(self).inv(),
            final(self)@ == (HandshakeView {
                state: old(self)@.state,
                peer_key_seen: true,
                key: old(self)@.key,
            }),
    {
        self.peer_key_seen = true;
    }

    /// Accept the session key derived from the exchanged values. Succeeds
    /// exactly once: only while awaiting, only after the peer's public
    /// value arrived, and only with a 32-byte key; any other attempt —
    /// in particular a second write — is refused and changes nothing.
    pub fn install_key(&mut self, key: Vec<u8>) -> (r: Result<(), Fault>)
        requires
            old(self).inv(),
        ensures
            final(self).inv(),
            (match r {
                Ok(()) => old(self)@.state == HandshakeState::AwaitingPeerPublicKey && old(
                    self,
                )@.peer_key_seen && key@.len() == SESSION_KEY_LEN && final(self)@
                    == (HandshakeView {
                    state: HandshakeState::Established,
                    peer_key_seen: true,
                    key: Some(key@),
                }),
                Err(f) => f == Fault::Protocol && final(self)@ == old(self)@ && !(old(self)@.state
                    == HandshakeState::AwaitingPeerPublicKey && old(self)@.peer_key_seen
                    && key@.len() == SESSION_KEY_LEN),
            }),
    {
        if !(matches!(self.state, HandshakeState::AwaitingPeerPublicKey) && self.peer_key_seen
            && key.len() == SESSION_KEY_LEN) {
            return Err(Fault::Protocol);
        }
        self.state = HandshakeState::Established;
        self.key = Some(key);
        Ok(())
    }

    /// Tear the handshake down after a fatal fault. Terminal: the key is
    /// discarded and no message may flow afterwards.
    pub fn fail(&mut self)
        requires
            old(self).inv(),
        ensures
            final(self).inv(),
            final(self)@ == (HandshakeView {
                state: HandshakeState::Failed,
                peer_key_seen: old(self)@.peer_key_seen,
                key: None,
            }),
    {
        self.state = HandshakeState::Failed;
        self.key = None;
    }

    /// Current handshake state.
    pub fn state(&self) -> (s: HandshakeState)
        ensures
            s == self@.state,
    {
        self.state
    }

    /// Whether the peer's public value has already been taken.
    pub fn peer_key_seen(&self) -> (r: bool)
        ensures
            r == self@.peer_key_seen,
    {
        self.peer_key_seen
    }

    /// A copy of the session key, once established.
    pub fn session_key(&self) -> (r: Option<Vec<u8>>)
        ensures
            (match r {
                Some(k) => self@.key == Some(k@),
                None => self@.key is None,
            }),
    {
        match &self.key {
            Some(k) => {
                let mut c: Vec<u8> = Vec::new();
                let mut i: usize = 0;
                while i < k.len()
                    invariant
                        i <= k@.len(),
                        c@ == k@.take(i as int),
                    decreases k@.len() - i,
                {
                    c.push(k[i]);
                    proof {
                        assert(c@ =~= k@.take(i + 1 as int));
                    }
                    i = i + 1;
                }
                proof {
                    assert(c@ =~= k@);
                }
                Some(c)
            },
            None => None,
        }
    }
}

} // verus!
