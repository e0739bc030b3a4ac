use crate::frame::{CompressedParams, TransportParams};
use crate::packet::{CompressedPacket, HandshakePacket, LongPacket};
use vstd::prelude::*;

verus! {

/// What a listener answers a handshake with.
#[derive(Debug, Clone, Copy, PartialEq, Eq, Structural)]
pub enum ConnectionListenerParams {
    /// Its own transport parameters: a data plane follows.
    Transport(TransportParams),
    /// The whole file as a byte and a count: no data plane follows.
    Compress(CompressedParams),
}

/// How a handshake ended for the side that started it.
#[derive(Debug, Clone, Copy, PartialEq, Eq, Structural)]
pub enum HandshakeOutcome {
    /// Start the data plane under the peer's parameters.
    Connection(TransportParams),
    /// Rebuild the file from a byte and a count.
    Compressed(CompressedParams),
}

/// The listener's reply to a client's handshake.
pub fn listener_reply(params: &ConnectionListenerParams) -> (r: LongPacket)
    ensures
        params matches ConnectionListenerParams::Transport(p) ==> r == LongPacket::Handshake(
            HandshakePacket::new_spec(*p),
        ),
        params matches ConnectionListenerParams::Compress(c) ==> r == LongPacket::Compressed(
            CompressedPacket::new_spec(*c),
        ),
{
    match params {
        ConnectionListenerParams::Transport(p) => LongPacket::Handshake(HandshakePacket::new(*p)),
        ConnectionListenerParams::Compress(c) => LongPacket::Compressed(CompressedPacket::new(*c)),
    }
}

/// What the client makes of the listener's reply; `None` for a reply that
/// is no answer to a handshake.
pub fn client_outcome(reply: LongPacket) -> (r: Option<HandshakeOutcome>)
    ensures
        reply matches LongPacket::Handshake(h) ==> r == Some(HandshakeOutcome::Connection(h.params)),
        reply matches LongPacket::Compressed(c) ==> r == Some(HandshakeOutcome::Compressed(c.params)),
        reply is HandshakeDone ==> r is None,
{
    match reply {
        LongPacket::Handshake(h) => Some(HandshakeOutcome::Connection(h.into_params())),
        LongPacket::Compressed(c) => Some(HandshakeOutcome::Compressed(c.into_params())),
        LongPacket::HandshakeDone(_) => None,
    }
}

/// The exclusive-or of all bytes of `s`.
pub open spec fn xor_all(s: Seq<u8>) -> u8
    decreases s.len(),
{
    if s.len() == 0 {
        0
    } else {
        xor_all(s.drop_last()) ^ s.last()
    }
}

/// How many leading bytes of a file the prescan looks at.
pub const PRESCAN_LEN: usize = 64;

/// The prescan of a file's start: if its first `PRESCAN_LEN` bytes (or all
/// of it, if shorter) exclusive-or to zero, the file is taken to repeat its
/// first byte, which is returned.
pub fn try_compress(prefix: &[u8]) -> (r: Option<u8>)
    ensures
        prefix@.len() == 0 ==> r is None,
        prefix@.len() > 0 ==> (r is Some <==> xor_all(
            prefix@.subrange(0, if prefix@.len() < PRESCAN_LEN { prefix@.len() as int } else { PRESCAN_LEN as int }),
        ) == 0),
        r matches Some(b) ==> b == prefix@[0],
{
    if prefix.len() == 0 {
        return None;
    }
    let n = if prefix.len() < PRESCAN_LEN {
        prefix.len()
    } else {
        PRESCAN_LEN
    };
    let mut acc: u8 = 0;
    let mut k: usize = 0;
    while k < n
        invariant
            k <= n <= prefix@.len(),
            acc == xor_all(prefix@.subrange(0, k as int)),
        decreases n - k,
    {
        proof {
            assert(prefix@.subrange(0, k + 1).drop_last() =~= prefix@.subrange(0, k as int));
        }
        acc = acc ^ prefix[k];
        k += 1;
    }
    if acc == 0 {
        Some(prefix[0])
    } else {
        None
    }
}

} // verus!
