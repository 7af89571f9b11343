use vstd::prelude::*;

use crate::errors::Fault;

verus! {

/// A MAC tag is always exactly this many bytes, appended after the
/// ciphertext and nowhere else.
pub const MAC_TAG_LEN: usize = 32;

/// A secure message on the wire: the ciphertext followed by the tag that
/// authenticates the ciphertext (encrypt-then-MAC — the tag is computed
/// over ciphertext, never over plaintext).
pub open spec fn secure_message(ciphertext: Seq<u8>, tag: Seq<u8>) -> Seq<u8> {
    ciphertext + tag
}

/// The ciphertext part of a secure message payload.
pub open spec fn ciphertext_of(payload: Seq<u8>) -> Seq<u8> {
    payload.take(payload.len() - MAC_TAG_LEN)
}

/// The received tag part of a secure message payload.
pub open spec fn tag_of(payload: Seq<u8>) -> Seq<u8> {
    payload.skip(payload.len() - MAC_TAG_LEN)
}

/// Assemble a ciphertext and its 32-byte tag into one secure message
/// payload. A tag of any other size is a protocol violation.
pub fn wrap_message(ciphertext: &[u8], tag: &[u8]) -> (r: Result<Vec<u8>, Fault>)
    ensures
        (match r {
            Ok(m) => tag@.len() == MAC_TAG_LEN && m@ == secure_message(ciphertext@, tag@),
            Err(f) => tag@.len() != MAC_TAG_LEN && f == Fault::Protocol,
        }),
{
    if tag.len() != MAC_TAG_LEN {
        return Err(Fault::Protocol);
    }
    let mut m: Vec<u8> = Vec::new();
    m.extend_from_slice(ciphertext);
    m.extend_from_slice(tag);
    Ok(m)
}

/// Split a secure message payload into its ciphertext and its received
/// tag. A payload too short to even hold a tag is a protocol violation.
pub fn split_message(payload: &[u8]) -> (r: Result<(Vec<u8>, Vec<u8>), Fault>)
    ensures
        (match r {
            Ok(parts) => payload@.len() >= MAC_TAG_LEN && parts.0@ == ciphertext_of(payload@)
                && parts.1@ == tag_of(payload@),
            Err(f) => payload@.len() < MAC_TAG_LEN && f == Fault::Protocol,
        }),
{
    if payload.len() < MAC_TAG_LEN {
        return Err(Fault::Protocol);
    }
    let cut = payload.len() - MAC_TAG_LEN;
    let mut c: Vec<u8> = Vec::new();
    let mut t: Vec<u8> = Vec::new();
    let mut i: usize = 0;
    while i < cut
        invariant
            i <= cut <= payload@.len(),
            c@ == payload@.take(i as int),
        decreases cut - i,
    {
        c.push(payload[i]);
        proof {
            assert(c@ =~= payload@.take(i + 1));
        }
        i = i + 1;
    }
    while i < payload.len()
        invariant
            cut <= i <= payload@.len(),
            cut == payload@.len() - MAC_TAG_LEN,
            t@ == payload@.subrange(cut as int, i as int),
        decreases payload@.len() - i,
    {
        t.push(payload[i]);
        proof {
            assert(t@ =~= payload@.subrange(cut as int, i + 1));
        }
        i = i + 1;
    }
    proof {
        assert(c@ =~= ciphertext_of(payload@));
        assert(t@ =~= tag_of(payload@));
    }
    Ok((c, t))
}

/// Whether two byte strings are equal.
fn bytes_eq(a: &[u8], b: &[u8]) -> (r: bool)
    ensures
        r == (a@ == b@),
{
    if a.len() != b.len() {
        proof {
            assert(a@.len() != b@.len());
        }
        return false;
    }
    let mut i: usize = 0;
    while i < a.len()
        invariant
            i <= a@.len(),
            a@.len() == b@.len(),
            forall|j: int| 0 <= j < i ==> a@[j] == b@[j],
        decreases a@.len() - i,
    {
        if a[i] != b[i] {
            return false;
        }
        i = i + 1;
    }
    proof {
        assert(a@ =~= b@);
    }
    true
}

/// Encrypt-then-MAC acceptance: release the ciphertext for decryption
/// only if the received tag equals the tag recomputed over the ciphertext
/// alone. On mismatch the message is rejected as tampered or
/// desynchronized, and nothing of it is released.
pub fn accept_ciphertext(ciphertext: Vec<u8>, received_tag: &[u8], computed_tag: &[u8]) -> (r:
    Result<Vec<u8>, Fault>)
    ensures
        (match r {
            Ok(c) => received_tag@ == computed_tag@ && c@ == ciphertext@,
            Err(f) => received_tag@ != computed_tag@ && f == Fault::Auth,
        }),
{
    if bytes_eq(received_tag, computed_tag) {
        Ok(ciphertext)
    } else {
        Err(Fault::Auth)
    }
}

/// Serialize one secure message for the wire: ciphertext plus its 32-byte
/// tag, as one frame. This is the broadcast fan-out path, where the
/// caller has already looked the session key up; per-connection sends go
/// through `Connection::seal`, which also gates on the handshake.
pub fn seal_message(ciphertext: &[u8], tag: &[u8]) -> (r: Result<Vec<u8>, Fault>)
    ensures
        (match r {
            Ok(m) => tag@.len() == MAC_TAG_LEN && ciphertext@.len() + MAC_TAG_LEN + 4 <= u32::MAX
                && m@ == crate::frame::frame_bytes(secure_message(ciphertext@, tag@)),
            Err(f) => f == Fault::Protocol && !(tag@.len() == MAC_TAG_LEN && ciphertext@.len()
                + MAC_TAG_LEN + 4 <= u32::MAX),
        }),
{
    match wrap_message(ciphertext, tag) {
        Err(f) => Err(f),
        Ok(m) => {
            if (m.len() as u64) > (u32::MAX as u64) - 4 {
                return Err(Fault::Protocol);
            }
            Ok(crate::frame::serialize_frame(m.as_slice()))
        },
    }
}

/// Wrapping then splitting a secure message gives back exactly the
/// ciphertext and the tag, for every ciphertext and every 32-byte tag.
pub proof fn lemma_secure_message_round_trip(ciphertext: Seq<u8>, tag: Seq<u8>)
    requires
        tag.len() == MAC_TAG_LEN,
    ensures
        secure_message(ciphertext, tag).len() >= MAC_TAG_LEN,
        ciphertext_of(secure_message(ciphertext, tag)) == ciphertext,
        tag_of(secure_message(ciphertext, tag)) == tag,
{
    let m = secure_message(ciphertext, tag);
    assert(ciphertext_of(m) =~= ciphertext);
    assert(tag_of(m) =~= tag);
}

/// Any change to the received tag of a secure message is caught: a split
/// payload whose tag differs from the tag recomputed over its ciphertext
/// is rejected, and a payload that carries the genuine tag is accepted.
/// (That a change to the ciphertext also changes the recomputed tag is the
/// MAC's collision resistance, which lies with the outside primitive.)
pub proof fn lemma_tamper_detected(ciphertext: Seq<u8>, genuine_tag: Seq<u8>, received: Seq<u8>)
    requires
        genuine_tag.len() == MAC_TAG_LEN,
        received.len() == MAC_TAG_LEN,
    ensures
        received != genuine_tag ==> tag_of(secure_message(ciphertext, received)) != genuine_tag,
        tag_of(secure_message(ciphertext, genuine_tag)) == genuine_tag,
{
    lemma_secure_message_round_trip(ciphertext, received);
    lemma_secure_message_round_trip(ciphertext, genuine_tag);
}

} // verus!
