use vstd::prelude::*;

use crate::channel;
use crate::errors::Fault;
use crate::frame;
use crate::frame::{parse_stream, FrameCodec};
use crate::handshake::{hs_inv, Handshake, HandshakeState, HandshakeView};

verus! {

/// One unit the inbound pump hands to the application layer.
#[derive(Debug, PartialEq, Eq)]
pub enum Inbound {
    /// The peer's public value, taken from the one handshake frame. The
    /// caller derives the shared secret and the session key from it and
    /// installs the key.
    PeerKey(Vec<u8>),
    /// A secure message, already split into ciphertext and received tag.
    /// The caller recomputes the tag over the ciphertext and must pass
    /// both tags through `channel::accept_ciphertext` before decrypting.
    Secure { ciphertext: Vec<u8>, tag: Vec<u8> },
}

/// Ghost image of an `Inbound`.
pub enum InboundView {
    PeerKey(Seq<u8>),
    Secure { ciphertext: Seq<u8>, tag: Seq<u8> },
}

impl View for Inbound {
    type V = InboundView;

    open spec fn view(&self) -> InboundView {
        match self {
            Inbound::PeerKey(k) => InboundView::PeerKey(k@),
            Inbound::Secure { ciphertext, tag } => InboundView::Secure {
                ciphertext: ciphertext@,
                tag: tag@,
            },
        }
    }
}

/// What one frame does to a connection: the handshake coordinator after
/// the frame, the item handed on, and the fault if the frame is not
/// admissible in the current state.
pub struct StepOutcome {
    pub hs: HandshakeView,
    pub item: Option<InboundView>,
    pub fault: Option<Fault>,
}

/// Route one complete frame. The first frame of a connection is the
/// peer's public value — never an application message. After that, until
/// the session key has been installed, no frame is admissible; once
/// established, every frame is a secure message. A connection that has
/// failed admits nothing.
pub open spec fn step_frame(h: HandshakeView, f: Seq<u8>) -> StepOutcome {
    match h.state {
        HandshakeState::Failed => StepOutcome { hs: h, item: None, fault: Some(Fault::Protocol) },
        HandshakeState::AwaitingPeerPublicKey => if !h.peer_key_seen {
            StepOutcome {
                hs: HandshakeView { state: h.state, peer_key_seen: true, key: h.key },
                item: Some(InboundView::PeerKey(f)),
                fault: None,
            }
        } else {
            StepOutcome {
                hs: HandshakeView {
                    state: HandshakeState::Failed,
                    peer_key_seen: h.peer_key_seen,
                    key: None,
                },
                item: None,
                fault: Some(Fault::Protocol),
            }
        },
        HandshakeState::Established => if f.len() < channel::MAC_TAG_LEN {
            StepOutcome {
                hs: HandshakeView {
                    state: HandshakeState::Failed,
                    peer_key_seen: h.peer_key_seen,
                    key: None,
                },
                item: None,
                fault: Some(Fault::Protocol),
            }
        } else {
            StepOutcome {
                hs: h,
                item: Some(
                    InboundView::Secure {
                        ciphertext: channel::ciphertext_of(f),
                        tag: channel::tag_of(f),
                    },
                ),
                fault: None,
            }
        },
    }
}

/// The effect of a burst of complete frames, processed in arrival order
/// and stopped at the first fault.
pub struct RunOutcome {
    pub hs: HandshakeView,
    pub items: Seq<InboundView>,
    pub fault: Option<Fault>,
}

/// Fold `step_frame` over the frames of one burst.
pub open spec fn run_frames(h: HandshakeView, fs: Seq<Seq<u8>>) -> RunOutcome
    decreases fs.len(),
{
    if fs.len() == 0 {
        RunOutcome { hs: h, items: Seq::empty(), fault: None }
    } else {
        let s = step_frame(h, fs[0]);
        if s.fault is Some {
            RunOutcome { hs: s.hs, items: Seq::empty(), fault: s.fault }
        } else {
            let rest = run_frames(s.hs, fs.skip(1));
            RunOutcome {
                hs: rest.hs,
                items: (match s.item {
                    Some(i) => seq![i],
                    None => Seq::<InboundView>::empty(),
                }) + rest.items,
                fault: rest.fault,
            }
        }
    }
}

/// Ghost image of a connection: the bytes still buffered for the next
/// frame, and the handshake coordinator.
pub struct ConnView {
    pub buf: Seq<u8>,
    pub hs: HandshakeView,
}

/// One end of a connection: reassembles the peer's byte stream into
/// frames and routes each frame by handshake state. Socket reads and
/// writes, key derivation and the cipher itself stay with the caller;
/// the connection owns the ordering and the gating.
pub struct Connection {
    codec: FrameCodec,
    hs: Handshake,
}

impl View for Connection {
    type V = ConnView;

    closed spec fn view(&self) -> ConnView {
        ConnView { buf: self.codec@, hs: self.hs@ }
    }
}

impl Connection {
    /// The connection's invariant.
    pub open spec fn inv(&self) -> bool {
        hs_inv(self@.hs)
    }

    /// A fresh connection: nothing buffered, handshake not begun.
    pub fn new() -> (c: Connection)
        ensures
            c.inv(),
            c@.buf == Seq::<u8>::empty(),
            c@.hs == (HandshakeView {
                state: HandshakeState::AwaitingPeerPublicKey,
                peer_key_seen: false,
                key: None,
            }),
    {
        Connection { codec: FrameCodec::new(), hs: Handshake::new() }
    }

    /// Feed bytes read from the socket, in arrival order, and take back
    /// everything they complete: the peer's public value from the
    /// handshake frame, and split secure messages after that. A malformed
    /// length prefix or an inadmissible frame fails the connection.
    #[verifier::loop_isolation(false)]
    pub fn on_bytes(&mut self, chunk: &[u8]) -> (r: Result<Vec<Inbound>, Fault>)
        requires
            old(self).inv(),
        ensures
            final(self).inv(),
            ({
                let po = parse_stream(old(self)@.buf + chunk@);
                final(self)@.buf == po.rest && if po.ok {
                    let ro = run_frames(old(self)@.hs, po.frames);
                    final(self)@.hs == ro.hs && (match r {
                        Ok(items) => ro.fault is None && items@.map_values(|i: Inbound| i@)
                            == ro.items,
                        Err(f) => ro.fault == Some(f),
                    })
                } else {
                    r == Err::<Vec<Inbound>, Fault>(Fault::Protocol) && final(self)@.hs
                        == (HandshakeView {
                        state: HandshakeState::Failed,
                        peer_key_seen: old(self)@.hs.peer_key_seen,
                        key: None,
                    })
                }
            }),
    {
        let mut frames = match self.codec.push_bytes(chunk) {
            Ok(fs) => fs,
            Err(f) => {
                self.hs.fail();
                return Err(f);
            },
        };
        let ghost fseq = frames@.map_values(|fr: Vec<u8>| fr@);
        let ghost h0 = self.hs@;
        let ghost rest0 = self.codec@;
        let ghost total = run_frames(h0, fseq);
        let mut items: Vec<Inbound> = Vec::new();
        proof {
            assert(items@.map_values(|i: Inbound| i@) + run_frames(self.hs@, fseq).items
                =~= run_frames(self.hs@, fseq).items);
        }
        while frames.len() > 0
            invariant
                self.inv(),
                self.codec@ == rest0,
                total.hs == run_frames(self.hs@, frames@.map_values(|fr: Vec<u8>| fr@)).hs,
                total.fault == run_frames(self.hs@, frames@.map_values(|fr: Vec<u8>| fr@)).fault,
                total.items == items@.map_values(|i: Inbound| i@) + run_frames(
                    self.hs@,
                    frames@.map_values(|fr: Vec<u8>| fr@),
                ).items,
            decreases frames@.len(),
        {
            let ghost rem0 = frames@.map_values(|fr: Vec<u8>| fr@);
            let ghost hcur = self.hs@;
            let f = frames.remove(0);
            proof {
                assert(f@ == rem0[0]);
                assert(frames@.map_values(|fr: Vec<u8>| fr@) =~= rem0.skip(1));
            }
            match self.hs.state() {
                HandshakeState::Failed => {
                    return Err(Fault::Protocol);
                },
                HandshakeState::AwaitingPeerPublicKey => {
                    if !self.hs.peer_key_seen() {
                        self.hs.note_peer_key();
                        let ghost mapped = items@.map_values(|i: Inbound| i@);
                        items.push(Inbound::PeerKey(f));
                        proof {
                            assert(items@.map_values(|i: Inbound| i@) =~= mapped + seq![
                                InboundView::PeerKey(rem0[0]),
                            ]);
                            assert(mapped + (seq![InboundView::PeerKey(rem0[0])] + run_frames(
                                self.hs@,
                                rem0.skip(1),
                            ).items) =~= (mapped + seq![InboundView::PeerKey(rem0[0])])
                                + run_frames(self.hs@, rem0.skip(1)).items);
                        }
                    } else {
                        self.hs.fail();
                        return Err(Fault::Protocol);
                    }
                },
                HandshakeState::Established => {
                    match channel::split_message(f.as_slice()) {
                        Ok(parts) => {
                            let ghost mapped = items@.map_values(|i: Inbound| i@);
                            let ghost iv = InboundView::Secure {
                                ciphertext: channel::ciphertext_of(rem0[0]),
                                tag: channel::tag_of(rem0[0]),
                            };
                            items.push(Inbound::Secure { ciphertext: parts.0, tag: parts.1 });
                            proof {
                                assert(items@.map_values(|i: Inbound| i@) =~= mapped + seq![iv]);
                                assert(mapped + (seq![iv] + run_frames(
                                    self.hs@,
                                    rem0.skip(1),
                                ).items) =~= (mapped + seq![iv]) + run_frames(
                                    self.hs@,
                                    rem0.skip(1),
                                ).items);
                            }
                        },
                        Err(_) => {
                            self.hs.fail();
                            return Err(Fault::Protocol);
                        },
                    }
                },
            }
        }
        proof {
            assert(frames@.map_values(|fr: Vec<u8>| fr@) =~= Seq::<Seq<u8>>::empty());
            assert(total.items =~= items@.map_values(|i: Inbound| i@));
        }
        Ok(items)
    }

    /// Install the session key derived from the exchanged values. Succeeds
    /// exactly once, only after the peer's public value arrived; see
    /// `Handshake::install_key`.
    pub fn install_key(&mut self, key: Vec<u8>) -> (r: Result<(), Fault>)
        requires
            old(self).inv(),
        ensures
            final(self).inv(),
            final(self)@.buf == old(self)@.buf,
            (match r {
                Ok(()) => old(self)@.hs.state == HandshakeState::AwaitingPeerPublicKey && old(
                    self,
                )@.hs.peer_key_seen && key@.len() == channel::MAC_TAG_LEN && final(self)@.hs
                    == (HandshakeView {
                    state: HandshakeState::Established,
                    peer_key_seen: true,
                    key: Some(key@),
                }),
                Err(f) => f == Fault::Protocol && final(self)@.hs == old(self)@.hs && !(old(
                    self,
                )@.hs.state == HandshakeState::AwaitingPeerPublicKey && old(self)@.hs.peer_key_seen
                    && key@.len() == channel::MAC_TAG_LEN),
            }),
    {
        self.hs.install_key(key)
    }

    /// Serialize one outgoing secure message: ciphertext plus its 32-byte
    /// tag, framed for the wire. Messages are refused — not queued — until
    /// the connection is established, and after it has failed; a caller
    /// that wants to send earlier holds the plaintext back itself.
    pub fn seal(&self, ciphertext: &[u8], tag: &[u8]) -> (r: Result<Vec<u8>, Fault>)
        requires
            self.inv(),
        ensures
            (match r {
                Ok(m) => self@.hs.state == HandshakeState::Established && tag@.len()
                    == channel::MAC_TAG_LEN && ciphertext@.len() + channel::MAC_TAG_LEN + 4
                    <= u32::MAX && m@ == frame::frame_bytes(
                    channel::secure_message(ciphertext@, tag@),
                ),
                Err(f) => f == Fault::Protocol && !(self@.hs.state == HandshakeState::Established
                    && tag@.len() == channel::MAC_TAG_LEN && ciphertext@.len()
                    + channel::MAC_TAG_LEN + 4 <= u32::MAX),
            }),
    {
        if !matches!(self.hs.state(), HandshakeState::Established) {
            return Err(Fault::Protocol);
        }
        channel::seal_message(ciphertext, tag)
    }

    /// Record a fatal transport fault: the connection is torn down and
    /// admits nothing afterwards.
    pub fn fail(&mut self)
        requires
            old(self).inv(),
        ensures
            final(self).inv(),
            final(self)@.buf == old(self)@.buf,
            final(self)@.hs == (HandshakeView {
                state: HandshakeState::Failed,
                peer_key_seen: old(self)@.hs.peer_key_seen,
                key: None,
            }),
    {
        self.hs.fail();
    }

    /// Current handshake state.
    pub fn state(&self) -> (s: HandshakeState)
        ensures
            s == self@.hs.state,
    {
        self.hs.state()
    }

    /// A copy of the session key, once established.
    pub fn session_key(&self) -> (r: Option<Vec<u8>>)
        ensures
            (match r {
                Some(k) => self@.hs.key == Some(k@),
                None => self@.hs.key is None,
            }),
    {
        self.hs.session_key()
    }
}

/// A connection that is not established delivers no secure message: a
/// frame in any other state yields at most the peer's public value, a
/// second frame while the key is still pending is rejected with a
/// protocol fault, and a failed connection rejects everything.
pub proof fn lemma_no_secure_before_established(h: HandshakeView, f: Seq<u8>)
    requires
        h.state != HandshakeState::Established,
    ensures
        !(step_frame(h, f).item matches Some(InboundView::Secure { ciphertext: _, tag: _ })),
        h.state == HandshakeState::Failed ==> step_frame(h, f).fault == Some(Fault::Protocol),
        h.state == HandshakeState::AwaitingPeerPublicKey && h.peer_key_seen ==> step_frame(
            h,
            f,
        ).fault == Some(Fault::Protocol) && step_frame(h, f).item is None,
{
}

/// Over a whole burst of frames, a connection that is not established
/// delivers no secure message either: without the session key installed
/// in between, every delivered item is the peer's public value. This is
/// the run-level form of `lemma_no_secure_before_established`.
pub proof fn lemma_run_no_secure_before_established(h: HandshakeView, fs: Seq<Seq<u8>>)
    requires
        h.state != HandshakeState::Established,
    ensures
        forall|i: int|
            0 <= i < run_frames(h, fs).items.len() ==> (#[trigger] run_frames(h, fs).items[i])
                matches InboundView::PeerKey(_),
    decreases fs.len(),
{
    if fs.len() > 0 {
        let s = step_frame(h, fs[0]);
        if s.fault is None {
            assert(s.hs.state != HandshakeState::Established);
            lemma_run_no_secure_before_established(s.hs, fs.skip(1));
            let head = (match s.item {
                Some(i) => seq![i],
                None => Seq::<InboundView>::empty(),
            });
            let rest = run_frames(s.hs, fs.skip(1));
            assert forall|i: int|
                0 <= i < run_frames(h, fs).items.len() implies (#[trigger] run_frames(
                h,
                fs,
            ).items[i]) matches InboundView::PeerKey(_) by {
                if i < head.len() {
                    assert(run_frames(h, fs).items[i] == head[0]);
                } else {
                    assert(run_frames(h, fs).items[i] == rest.items[i - head.len()]);
                }
            }
        }
    }
}

/// What one peer seals, the other side's connection delivers intact: for
/// every ciphertext, every 32-byte tag and every established connection,
/// the bytes of one sealed message parse as exactly one frame, and that
/// frame is delivered as exactly that ciphertext and that tag, with the
/// connection undisturbed. Together with the cipher's own round trip —
/// which lies with the outside primitive — this is the transport round
/// trip for secure messages.
pub proof fn lemma_seal_round_trip(h: HandshakeView, c: Seq<u8>, t: Seq<u8>)
    requires
        h.state == HandshakeState::Established,
        t.len() == channel::MAC_TAG_LEN,
        c.len() + channel::MAC_TAG_LEN + 4 <= u32::MAX,
    ensures
        ({
            let po = parse_stream(frame::frame_bytes(channel::secure_message(c, t)));
            let ro = run_frames(h, po.frames);
            po.ok && po.rest == Seq::<u8>::empty() && ro.fault is None && ro.hs == h && ro.items
                == seq![InboundView::Secure { ciphertext: c, tag: t }]
        }),
{
    let m = channel::secure_message(c, t);
    frame::lemma_frame_round_trip(m);
    channel::lemma_secure_message_round_trip(c, t);
    let po = parse_stream(frame::frame_bytes(m));
    assert(po.frames == seq![m]);
    assert(po.frames[0] == m);
    let s = step_frame(h, po.frames[0]);
    assert(channel::ciphertext_of(po.frames[0]) == c);
    assert(channel::tag_of(po.frames[0]) == t);
    assert(s.item == Some(InboundView::Secure { ciphertext: c, tag: t }));
    assert(s.hs == h);
    assert(s.fault is None);
    let e: Seq<Seq<u8>> = Seq::empty();
    assert(po.frames.skip(1) =~= e);
    assert(run_frames(s.hs, e).items == Seq::<InboundView>::empty());
    assert(run_frames(s.hs, e).fault is None);
    assert(run_frames(s.hs, e).hs == s.hs);
    assert(run_frames(h, po.frames).items == seq![s.item->Some_0] + run_frames(s.hs, e).items);
    assert(run_frames(h, po.frames).items =~= seq![
        InboundView::Secure { ciphertext: c, tag: t },
    ]);
}

/// A secure message arriving before the handshake has finished is
/// rejected with a protocol fault and never delivered: on a fresh
/// connection, a burst of two or more frames yields the peer's public
/// value from the first frame and nothing else — the second frame, which
/// can only be an application message sent too early, faults the
/// connection.
pub proof fn lemma_message_before_established_rejected(h: HandshakeView, fs: Seq<Seq<u8>>)
    requires
        h.state == HandshakeState::AwaitingPeerPublicKey,
        !h.peer_key_seen,
        fs.len() >= 2,
    ensures
        run_frames(h, fs).fault == Some(Fault::Protocol),
        run_frames(h, fs).items == seq![InboundView::PeerKey(fs[0])],
{
    let s1 = step_frame(h, fs[0]);
    let rest = run_frames(s1.hs, fs.skip(1));
    assert(fs.skip(1)[0] == fs[1]);
    assert(rest.fault == Some(Fault::Protocol));
    assert(rest.items =~= Seq::<InboundView>::empty());
    assert(run_frames(h, fs).items =~= seq![InboundView::PeerKey(fs[0])]);
}

} // verus!
