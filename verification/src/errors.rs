use vstd::prelude::*;

verus! {

/// Faults that can end a connection or degrade a message.
///
/// `Transport` is a socket failure other than a read timeout; `Protocol`
/// covers malformed frame lengths and frames arriving in a state that does
/// not admit them; `Auth` is a MAC mismatch on a secure message; `Encoding`
/// marks a delivered payload that is not valid text (non-fatal).
#[derive(Clone, Copy, Debug, PartialEq, Eq, Structural)]
pub enum Fault {
    Transport,
    Protocol,
    Auth,
    Encoding,
}

} // verus!
