//! The per-connection protocol state machine. A session walks a fixed
//! order — handshake, piece advertisement, interest and unchoke, then
//! repeated block requests — and rejects any message that arrives out of
//! order or malformed. The caller owns the socket and moves raw bytes;
//! this type decides what to send and validates what came back.

use vstd::prelude::*;

use crate::message::{
    parse_bitfield, parse_handshake, parse_piece_payload, spec_be32, spec_be32_bytes,
    spec_handshake, spec_handshake_ok, spec_has_piece, Message, TAG_BITFIELD, TAG_INTERESTED,
    TAG_PIECE, TAG_REQUEST, TAG_UNCHOKE,
};

verus! {

/// The wire-protocol violations a session detects.
#[derive(Debug, PartialEq, Eq, Structural, Clone, Copy)]
pub enum ProtocolError {
    /// The handshake reply was malformed or named another protocol.
    BadHandshake,
    /// A message arrived with a tag the current state does not allow.
    UnexpectedTag,
    /// A payload was empty or malformed where content was required.
    BadPayload,
    /// A piece message answered a different block than was requested.
    WrongBlock,
}

/// The protocol phases of one connection, in the order they are entered.
#[derive(Debug, PartialEq, Eq, Structural, Clone, Copy)]
pub enum SessionState {
    /// Created from an address; nothing exchanged yet.
    Disconnected,
    /// The handshake was echoed correctly.
    Handshaken,
    /// The first framed message carried the piece advertisement.
    HasBitfield,
    /// Interest was declared and the peer unchoked; blocks may be requested.
    Ready,
}

/// The local peer id sent in handshakes and announced to the tracker:
/// the twenty ASCII digits `00112233445566778899`.
pub open spec fn spec_local_peer_id() -> Seq<u8> {
    seq![
        48u8, 48u8, 49u8, 49u8, 50u8, 50u8, 51u8, 51u8, 52u8, 52u8, 53u8, 53u8, 54u8, 54u8,
        55u8, 55u8, 56u8, 56u8, 57u8, 57u8,
    ]
}

/// The local peer id as bytes.
pub fn local_peer_id() -> (r: Vec<u8>)
    ensures
        r@ == spec_local_peer_id(),
        r@.len() == 20,
{
    let r: Vec<u8> = vec![
        48u8, 48u8, 49u8, 49u8, 50u8, 50u8, 51u8, 51u8, 52u8, 52u8, 53u8, 53u8, 54u8, 54u8,
        55u8, 55u8, 56u8, 56u8, 57u8, 57u8,
    ];
    proof {
        assert(r@ =~= spec_local_peer_id());
    }
    r
}

/// One peer connection's protocol state: the phase, the remote peer id
/// (known after the handshake) and the advertised piece indices (known
/// after the bitfield).
pub struct PeerSession {
    pub state: SessionState,
    pub peer_id: Vec<u8>,
    pub advertised: Vec<usize>,
}

impl PeerSession {
    /// The id is empty until the handshake and 20 bytes afterwards; the
    /// advertisement is empty until the bitfield arrives.
    pub open spec fn wf(self) -> bool {
        &&& (self.state is Disconnected ==> self.peer_id@.len() == 0
            && self.advertised@.len() == 0)
        &&& (!(self.state is Disconnected) ==> self.peer_id@.len() == 20)
        &&& (self.state is Handshaken ==> self.advertised@.len() == 0)
    }

    /// A fresh, unconnected session.
    pub fn new() -> (s: PeerSession)
        ensures
            s.state is Disconnected,
            s.wf(),
    {
        PeerSession { state: SessionState::Disconnected, peer_id: Vec::new(), advertised: Vec::new() }
    }

    /// The 68-byte handshake to send for `info_hash`.
    pub fn handshake_message(info_hash: &Vec<u8>) -> (r: Vec<u8>)
        requires
            info_hash@.len() == 20,
        ensures
            r@ == spec_handshake(info_hash@, spec_local_peer_id()),
            r@.len() == 68,
    {
        let pid = local_peer_id();
        crate::message::build_handshake(info_hash, &pid)
    }

    /// Consume the echoed handshake. Succeeds exactly when the reply is 68
    /// bytes with the length byte 19 and the exact protocol name; the
    /// remote peer id is then recorded and the session is handshaken.
    pub fn on_handshake_reply(&mut self, reply: &Vec<u8>) -> (r: Result<(), ProtocolError>)
        requires
            old(self).state is Disconnected,
            old(self).wf(),
        ensures
            final(self).wf(),
            final(self).advertised@ == old(self).advertised@,
            match r {
                Ok(()) => spec_handshake_ok(reply@) && final(self).state is Handshaken
                    && final(self).peer_id@ == reply@.subrange(48, 68),
                Err(e) => e == ProtocolError::BadHandshake && !spec_handshake_ok(reply@)
                    && *final(self) == *old(self),
            },
    {
        match parse_handshake(reply) {
            Some(pid) => {
                self.peer_id = pid;
                self.state = SessionState::Handshaken;
                Ok(())
            },
            None => Err(ProtocolError::BadHandshake),
        }
    }

    /// Consume the first framed message, which must carry the bitfield
    /// tag; its payload is unpacked into the advertised piece indices,
    /// most significant bit first within each byte.
    pub fn on_bitfield(&mut self, msg: &Message) -> (r: Result<(), ProtocolError>)
        requires
            old(self).state is Handshaken,
            old(self).wf(),
            8 * msg.payload@.len() <= usize::MAX,
        ensures
            final(self).wf(),
            final(self).peer_id@ == old(self).peer_id@,
            match r {
                Ok(()) => msg.tag == TAG_BITFIELD && final(self).state is HasBitfield
                    && (forall|k: int|
                    0 <= k < final(self).advertised@.len() ==> spec_has_piece(
                        msg.payload@,
                        #[trigger] final(self).advertised@[k] as int,
                    )) && (forall|k1: int, k2: int|
                    0 <= k1 < k2 < final(self).advertised@.len()
                        ==> final(self).advertised@[k1] < final(self).advertised@[k2]) && (
                forall|i: int|
                    0 <= i < 8 * msg.payload@.len() && spec_has_piece(msg.payload@, i)
                        ==> final(self).advertised@.contains(i as usize)),
                Err(e) => e == ProtocolError::UnexpectedTag && msg.tag != TAG_BITFIELD
                    && *final(self) == *old(self),
            },
    {
        if msg.tag != TAG_BITFIELD {
            return Err(ProtocolError::UnexpectedTag);
        }
        self.advertised = parse_bitfield(&msg.payload);
        self.state = SessionState::HasBitfield;
        Ok(())
    }

    /// The interest declaration to send once the bitfield is known: the
    /// interested tag with an empty payload.
    pub fn interest_message(&self) -> (r: Message)
        requires
            self.state is HasBitfield,
        ensures
            r.tag == TAG_INTERESTED,
            r.payload@.len() == 0,
    {
        Message { tag: TAG_INTERESTED, payload: Vec::new() }
    }

    /// Consume the reply to the interest declaration, which must be an
    /// unchoke with an empty payload; the session is then ready for
    /// block requests.
    pub fn on_unchoke(&mut self, msg: &Message) -> (r: Result<(), ProtocolError>)
        requires
            old(self).state is HasBitfield,
            old(self).wf(),
        ensures
            final(self).wf(),
            final(self).peer_id@ == old(self).peer_id@,
            final(self).advertised@ == old(self).advertised@,
            match r {
                Ok(()) => msg.tag == TAG_UNCHOKE && msg.payload@.len() == 0
                    && final(self).state is Ready,
                Err(e) => *final(self) == *old(self) && if msg.tag != TAG_UNCHOKE {
                    e == ProtocolError::UnexpectedTag
                } else {
                    e == ProtocolError::BadPayload && msg.payload@.len() != 0
                },
            },
    {
        if msg.tag != TAG_UNCHOKE {
            return Err(ProtocolError::UnexpectedTag);
        }
        if msg.payload.len() != 0 {
            return Err(ProtocolError::BadPayload);
        }
        self.state = SessionState::Ready;
        Ok(())
    }

    /// Whether the peer advertised this piece.
    pub fn has_piece(&self, piece: usize) -> (r: bool)
        ensures
            r == self.advertised@.contains(piece),
    {
        let mut i: usize = 0;
        while i < self.advertised.len()
            invariant
                i <= self.advertised@.len(),
                forall|j: int| 0 <= j < i ==> self.advertised@[j] != piece,
            decreases self.advertised@.len() - i,
        {
            if self.advertised[i] == piece {
                return true;
            }
            i += 1;
        }
        proof {
            assert(!self.advertised@.contains(piece));
        }
        false
    }

    /// The block request to send in the ready state: the request tag over
    /// the piece index, byte offset and length as big-endian fields.
    pub fn request_message(&self, piece: u32, begin: u32, length: u32) -> (r: Message)
        requires
            self.state is Ready,
        ensures
            r.tag == TAG_REQUEST,
            r.payload@ == spec_be32_bytes(piece as int) + spec_be32_bytes(begin as int)
                + spec_be32_bytes(length as int),
    {
        Message { tag: TAG_REQUEST, payload: crate::message::request_payload(piece, begin, length) }
    }

    /// Validate the reply to a block request. It must carry the piece tag,
    /// a non-empty payload with its 8-byte header, and echo the requested
    /// piece index and offset; the block bytes are then handed back.
    pub fn on_piece(&self, msg: &Message, piece: u32, begin: u32) -> (r: Result<
        Vec<u8>,
        ProtocolError,
    >)
        requires
            self.state is Ready,
        ensures
            match r {
                Ok(block) => msg.tag == TAG_PIECE && msg.payload@.len() >= 8 && spec_be32(
                    msg.payload@.subrange(0, 4),
                ) == piece as int && spec_be32(msg.payload@.subrange(4, 8)) == begin as int
                    && block@ == msg.payload@.skip(8),
                Err(e) => if msg.tag != TAG_PIECE {
                    e == ProtocolError::UnexpectedTag
                } else if msg.payload@.len() < 8 {
                    e == ProtocolError::BadPayload
                } else {
                    e == ProtocolError::WrongBlock && (spec_be32(msg.payload@.subrange(0, 4))
                        != piece as int || spec_be32(msg.payload@.subrange(4, 8)) != begin
                        as int)
                },
            },
    {
        if msg.tag != TAG_PIECE {
            return Err(ProtocolError::UnexpectedTag);
        }
        match parse_piece_payload(&msg.payload) {
            None => Err(ProtocolError::BadPayload),
            Some((index, offset, block)) => {
                if index != piece || offset != begin {
                    return Err(ProtocolError::WrongBlock);
                }
                Ok(block)
            },
        }
    }
}

} // verus!
