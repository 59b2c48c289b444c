//! Framing of peer-protocol messages: a 4-byte big-endian length prefix
//! covering a 1-byte tag and the payload (a zero length is a keep-alive),
//! the fixed 68-byte handshake, the request payload of three big-endian
//! fields, the piece payload of index, offset and block bytes, and the
//! bit-packed piece advertisement.

use vstd::prelude::*;

verus! {

/// Wire tag of the unchoke message.
pub const TAG_UNCHOKE: u8 = 1;

/// Wire tag of the interest declaration.
pub const TAG_INTERESTED: u8 = 2;

/// Wire tag of the piece advertisement.
pub const TAG_BITFIELD: u8 = 5;

/// Wire tag of a block request.
pub const TAG_REQUEST: u8 = 6;

/// Wire tag of a block response.
pub const TAG_PIECE: u8 = 7;

/// A framed peer message: a tag byte and its payload.
pub struct Message {
    pub tag: u8,
    pub payload: Vec<u8>,
}

/// The value of four big-endian bytes.
pub open spec fn spec_be32(s: Seq<u8>) -> int
    recommends
        s.len() == 4,
{
    s[0] * 0x100_0000 + s[1] * 0x1_0000 + s[2] * 0x100 + s[3]
}

/// The four big-endian bytes of a value below `2^32`.
pub open spec fn spec_be32_bytes(x: int) -> Seq<u8> {
    seq![
        ((x / 0x100_0000) % 0x100) as u8,
        ((x / 0x1_0000) % 0x100) as u8,
        ((x / 0x100) % 0x100) as u8,
        (x % 0x100) as u8,
    ]
}

/// The four big-endian bytes of `x`.
pub fn be32_bytes(x: u32) -> (r: Vec<u8>)
    ensures
        r@ == spec_be32_bytes(x as int),
        r@.len() == 4,
        spec_be32(r@) == x as int,
{
    let b0 = (x / 0x100_0000) as u8;
    let b1 = ((x / 0x1_0000) % 0x100) as u8;
    let b2 = ((x / 0x100) % 0x100) as u8;
    let b3 = (x % 0x100) as u8;
    let r: Vec<u8> = vec![b0, b1, b2, b3];
    proof {
        let xi = x as int;
        vstd::arithmetic::div_mod::lemma_fundamental_div_mod(xi, 0x100_0000);
        vstd::arithmetic::div_mod::lemma_fundamental_div_mod(xi % 0x100_0000, 0x1_0000);
        vstd::arithmetic::div_mod::lemma_fundamental_div_mod(xi % 0x1_0000, 0x100);
        assert(xi / 0x100_0000 < 0x100) by (nonlinear_arith)
            requires
                0 <= xi < 0x1_0000_0000,
        ;
        assert((xi / 0x100_0000) % 0x100 == xi / 0x100_0000) by {
            vstd::arithmetic::div_mod::lemma_small_mod((xi / 0x100_0000) as nat, 0x100);
        }
        assert((xi % 0x100_0000) / 0x1_0000 == (xi / 0x1_0000) % 0x100) by (nonlinear_arith)
            requires
                0 <= xi < 0x1_0000_0000,
        ;
        assert((xi % 0x1_0000) / 0x100 == (xi / 0x100) % 0x100) by (nonlinear_arith)
            requires
                0 <= xi < 0x1_0000_0000,
        ;
        assert(r@ =~= spec_be32_bytes(xi));
        assert(spec_be32(r@) == xi) by (nonlinear_arith)
            requires
                r@[0] == (xi / 0x100_0000) % 0x100,
                r@[1] == (xi / 0x1_0000) % 0x100,
                r@[2] == (xi / 0x100) % 0x100,
                r@[3] == xi % 0x100,
                0 <= xi < 0x1_0000_0000,
        ;
    }
    r
}

/// The value of four big-endian bytes.
pub fn be32_value(b0: u8, b1: u8, b2: u8, b3: u8) -> (r: u32)
    ensures
        r as int == spec_be32(seq![b0, b1, b2, b3]),
{
    let r = (b0 as u32) * 0x100_0000 + (b1 as u32) * 0x1_0000 + (b2 as u32) * 0x100 + (b3
        as u32);
    proof {
        assert(seq![b0, b1, b2, b3][0] == b0);
        assert(seq![b0, b1, b2, b3][1] == b1);
        assert(seq![b0, b1, b2, b3][2] == b2);
        assert(seq![b0, b1, b2, b3][3] == b3);
    }
    r
}

/// The encoded frame of a message: its length prefix, tag and payload.
pub open spec fn spec_frame(m: Message) -> Seq<u8> {
    spec_be32_bytes(1 + m.payload@.len() as int) + seq![m.tag] + m.payload@
}

/// Encode a message as a length-prefixed frame.
#[verifier::loop_isolation(false)]
pub fn encode_frame(m: &Message) -> (r: Vec<u8>)
    requires
        m.payload@.len() + 1 <= u32::MAX,
    ensures
        r@ == spec_frame(*m),
{
    let len: u32 = (m.payload.len() + 1) as u32;
    let mut r = be32_bytes(len);
    r.push(m.tag);
    let mut i: usize = 0;
    while i < m.payload.len()
        invariant
            i <= m.payload@.len(),
            r@ == spec_be32_bytes(1 + m.payload@.len() as int) + seq![m.tag]
                + m.payload@.take(i as int),
        decreases m.payload@.len() - i,
    {
        r.push(m.payload[i]);
        proof {
            assert(m.payload@.take(i + 1 as int) =~= m.payload@.take(i as int).push(
                m.payload@[i as int],
            ));
        }
        i += 1;
    }
    proof {
        assert(m.payload@.take(m.payload@.len() as int) =~= m.payload@);
    }
    r
}

/// The outcome of scanning a buffer for one frame.
pub enum FrameOut {
    /// The buffer does not yet hold a complete frame.
    NeedMore,
    /// A zero-length keep-alive; the position just past its 4 bytes.
    KeepAlive(usize),
    /// A complete message and the position just past its frame.
    Frame(Message, usize),
}

/// Scan `buf` from `from` for one complete frame.
#[verifier::loop_isolation(false)]
pub fn parse_frame(buf: &Vec<u8>, from: usize) -> (r: FrameOut)
    requires
        from <= buf@.len(),
    ensures
        ({
            let b = buf@.skip(from as int);
            match r {
                FrameOut::NeedMore => b.len() < 4 || 4 + spec_be32(b.subrange(0, 4)) > b.len(),
                FrameOut::KeepAlive(end) => b.len() >= 4 && spec_be32(b.subrange(0, 4)) == 0
                    && end == from + 4,
                FrameOut::Frame(m, end) => b.len() >= 4 && 1 <= spec_be32(b.subrange(0, 4))
                    && end - from == 4 + spec_be32(b.subrange(0, 4)) && from + 4 < end
                    <= buf@.len() && m.tag == b[4] && m.payload@ == b.subrange(
                    5,
                    end - from as int,
                ),
            }
        }),
{
    let ghost b = buf@.skip(from as int);
    let blen = buf.len();
    if blen - from < 4 {
        return FrameOut::NeedMore;
    }
    let len0 = be32_value(buf[from], buf[from + 1], buf[from + 2], buf[from + 3]);
    proof {
        assert(b.subrange(0, 4) =~= seq![
            buf@[from as int],
            buf@[from + 1 as int],
            buf@[from + 2 as int],
            buf@[from + 3 as int],
        ]);
    }
    if len0 == 0 {
        return FrameOut::KeepAlive(from + 4);
    }
    let remaining = blen - from;
    if (len0 as u64) > (remaining as u64) - 4 {
        return FrameOut::NeedMore;
    }
    let len = len0 as usize;
    let tag = buf[from + 4];
    let mut payload: Vec<u8> = Vec::new();
    let mut i: usize = 0;
    while i < len - 1
        invariant
            i <= len - 1,
            len == len0,
            from + 4 + len <= buf@.len(),
            payload@ == buf@.subrange(from + 5 as int, from + 5 + i as int),
        decreases len - 1 - i,
    {
        payload.push(buf[from + 5 + i]);
        proof {
            assert(buf@.subrange(from + 5 as int, from + 5 + (i + 1) as int) =~= buf@.subrange(
                from + 5 as int,
                from + 5 + i as int,
            ).push(buf@[from + 5 + i as int]));
        }
        i += 1;
    }
    let end = from + 4 + len;
    proof {
        assert(b[4] == buf@[from + 4 as int]);
        assert(b.subrange(5, (end - from) as int) =~= buf@.subrange(
            from + 5 as int,
            end as int,
        ));
    }
    FrameOut::Frame(Message { tag, payload }, end)
}

/// The 19-byte protocol name carried by every handshake.
pub open spec fn spec_protocol_name() -> Seq<u8> {
    seq![
        66u8, 105u8, 116u8, 84u8, 111u8, 114u8, 114u8, 101u8, 110u8, 116u8, 32u8, 112u8,
        114u8, 111u8, 116u8, 111u8, 99u8, 111u8, 108u8,
    ]
}

/// The fixed 68-byte handshake: a length byte of 19, the protocol name,
/// 8 reserved zero bytes, the 20-byte identifier, the 20-byte peer id.
pub open spec fn spec_handshake(info_hash: Seq<u8>, peer_id: Seq<u8>) -> Seq<u8> {
    seq![19u8] + spec_protocol_name() + seq![0u8, 0u8, 0u8, 0u8, 0u8, 0u8, 0u8, 0u8]
        + info_hash + peer_id
}

/// A handshake reply is acceptable when its length byte and protocol name
/// match exactly.
pub open spec fn spec_handshake_ok(reply: Seq<u8>) -> bool {
    &&& reply.len() == 68
    &&& reply[0] == 19
    &&& reply.subrange(1, 20) == spec_protocol_name()
}

fn protocol_name_bytes() -> (r: Vec<u8>)
    ensures
        r@ == spec_protocol_name(),
{
    let r: Vec<u8> = vec![
        66u8, 105u8, 116u8, 84u8, 111u8, 114u8, 114u8, 101u8, 110u8, 116u8, 32u8, 112u8,
        114u8, 111u8, 116u8, 111u8, 99u8, 111u8, 108u8,
    ];
    proof {
        assert(r@ =~= spec_protocol_name());
    }
    r
}

/// Build the 68-byte handshake for `info_hash`, sent with `peer_id`.
#[verifier::loop_isolation(false)]
pub fn build_handshake(info_hash: &Vec<u8>, peer_id: &Vec<u8>) -> (r: Vec<u8>)
    requires
        info_hash@.len() == 20,
        peer_id@.len() == 20,
    ensures
        r@ == spec_handshake(info_hash@, peer_id@),
        r@.len() == 68,
{
    let mut r: Vec<u8> = Vec::new();
    r.push(19);
    let name = protocol_name_bytes();
    let mut i: usize = 0;
    while i < name.len()
        invariant
            i <= name@.len(),
            name@ == spec_protocol_name(),
            r@ == seq![19u8] + name@.take(i as int),
        decreases name@.len() - i,
    {
        r.push(name[i]);
        proof {
            assert(name@.take(i + 1 as int) =~= name@.take(i as int).push(name@[i as int]));
        }
        i += 1;
    }
    proof {
        assert(name@.take(name@.len() as int) =~= name@);
    }
    let mut z: usize = 0;
    let ghost base1 = r@;
    while z < 8
        invariant
            z <= 8,
            r@.len() == base1.len() + z,
            r@ == base1 + seq![0u8, 0u8, 0u8, 0u8, 0u8, 0u8, 0u8, 0u8].take(z as int),
        decreases 8 - z,
    {
        r.push(0);
        proof {
            let zeros = seq![0u8, 0u8, 0u8, 0u8, 0u8, 0u8, 0u8, 0u8];
            assert(zeros.take(z + 1 as int) =~= zeros.take(z as int).push(0u8));
        }
        z += 1;
    }
    proof {
        let zeros = seq![0u8, 0u8, 0u8, 0u8, 0u8, 0u8, 0u8, 0u8];
        assert(zeros.take(8) =~= zeros);
    }
    let mut i: usize = 0;
    let ghost base2 = r@;
    while i < info_hash.len()
        invariant
            i <= info_hash@.len(),
            r@ == base2 + info_hash@.take(i as int),
        decreases info_hash@.len() - i,
    {
        r.push(info_hash[i]);
        proof {
            assert(info_hash@.take(i + 1 as int) =~= info_hash@.take(i as int).push(
                info_hash@[i as int],
            ));
        }
        i += 1;
    }
    proof {
        assert(info_hash@.take(info_hash@.len() as int) =~= info_hash@);
    }
    let mut i: usize = 0;
    let ghost base3 = r@;
    while i < peer_id.len()
        invariant
            i <= peer_id@.len(),
            r@ == base3 + peer_id@.take(i as int),
        decreases peer_id@.len() - i,
    {
        r.push(peer_id[i]);
        proof {
            assert(peer_id@.take(i + 1 as int) =~= peer_id@.take(i as int).push(
                peer_id@[i as int],
            ));
        }
        i += 1;
    }
    proof {
        assert(peer_id@.take(peer_id@.len() as int) =~= peer_id@);
        assert(r@ =~= spec_handshake(info_hash@, peer_id@));
    }
    r
}

/// Check a 68-byte handshake reply; on success, the remote peer id.
#[verifier::loop_isolation(false)]
pub fn parse_handshake(reply: &Vec<u8>) -> (r: Option<Vec<u8>>)
    ensures
        match r {
            Some(pid) => spec_handshake_ok(reply@) && pid@ == reply@.subrange(48, 68),
            None => !spec_handshake_ok(reply@),
        },
{
    if reply.len() != 68 {
        return None;
    }
    if reply[0] != 19 {
        return None;
    }
    let name = protocol_name_bytes();
    let mut i: usize = 0;
    while i < 19
        invariant
            i <= 19,
            reply@.len() == 68,
            name@ == spec_protocol_name(),
            forall|j: int| 0 <= j < i ==> reply@[1 + j] == name@[j],
        decreases 19 - i,
    {
        if reply[1 + i] != name[i] {
            proof {
                assert(reply@.subrange(1, 20)[i as int] != spec_protocol_name()[i as int]);
            }
            return None;
        }
        i += 1;
    }
    let mut pid: Vec<u8> = Vec::new();
    let mut i: usize = 48;
    while i < 68
        invariant
            48 <= i <= 68,
            reply@.len() == 68,
            pid@ == reply@.subrange(48, i as int),
        decreases 68 - i,
    {
        pid.push(reply[i]);
        proof {
            assert(reply@.subrange(48, i + 1 as int) =~= reply@.subrange(48, i as int).push(
                reply@[i as int],
            ));
        }
        i += 1;
    }
    proof {
        assert(reply@.subrange(1, 20) =~= spec_protocol_name());
    }
    Some(pid)
}

/// The payload of a block request: piece index, byte offset and length,
/// each as four big-endian bytes.
pub fn request_payload(index: u32, begin: u32, length: u32) -> (r: Vec<u8>)
    ensures
        r@ == spec_be32_bytes(index as int) + spec_be32_bytes(begin as int) + spec_be32_bytes(
            length as int,
        ),
        r@.len() == 12,
{
    let mut r = be32_bytes(index);
    let mut b = be32_bytes(begin);
    let mut l = be32_bytes(length);
    r.append(&mut b);
    r.append(&mut l);
    r
}

/// Split a piece payload into its index, offset and block bytes; `None`
/// when the payload is shorter than its 8-byte header.
#[verifier::loop_isolation(false)]
pub fn parse_piece_payload(payload: &Vec<u8>) -> (r: Option<(u32, u32, Vec<u8>)>)
    ensures
        match r {
            Some(p) => payload@.len() >= 8 && p.0 as int == spec_be32(payload@.subrange(0, 4))
                && p.1 as int == spec_be32(payload@.subrange(4, 8)) && p.2@ == payload@.skip(8),
            None => payload@.len() < 8,
        },
{
    if payload.len() < 8 {
        return None;
    }
    let index = be32_value(payload[0], payload[1], payload[2], payload[3]);
    let begin = be32_value(payload[4], payload[5], payload[6], payload[7]);
    let mut block: Vec<u8> = Vec::new();
    let mut i: usize = 8;
    while i < payload.len()
        invariant
            8 <= i <= payload@.len(),
            block@ == payload@.subrange(8, i as int),
        decreases payload@.len() - i,
    {
        block.push(payload[i]);
        proof {
            assert(payload@.subrange(8, i + 1 as int) =~= payload@.subrange(8, i as int).push(
                payload@[i as int],
            ));
        }
        i += 1;
    }
    proof {
        assert(payload@.subrange(0, 4) =~= seq![
            payload@[0],
            payload@[1],
            payload@[2],
            payload@[3],
        ]);
        assert(payload@.subrange(4, 8) =~= seq![
            payload@[4],
            payload@[5],
            payload@[6],
            payload@[7],
        ]);
        assert(block@ =~= payload@.skip(8));
    }
    Some((index, begin, block))
}

/// Whether bit `i` of the advertisement is set: most-significant bit
/// first within each byte.
pub open spec fn spec_has_piece(payload: Seq<u8>, i: int) -> bool {
    &&& 0 <= i < 8 * payload.len()
    &&& (payload[i / 8] as int / spec_bit_weight(i % 8)) % 2 == 1
}

/// The weight of bit `k` of a byte, counting from the most significant.
pub open spec fn spec_bit_weight(k: int) -> int {
    if k == 0 {
        128
    } else if k == 1 {
        64
    } else if k == 2 {
        32
    } else if k == 3 {
        16
    } else if k == 4 {
        8
    } else if k == 5 {
        4
    } else if k == 6 {
        2
    } else {
        1
    }
}

/// Unpack a bit-packed piece advertisement into the ascending list of the
/// piece indices whose bit is set.
#[verifier::loop_isolation(false)]
pub fn parse_bitfield(payload: &Vec<u8>) -> (r: Vec<usize>)
    requires
        8 * payload@.len() <= usize::MAX,
    ensures
        forall|k: int|
            0 <= k < r@.len() ==> spec_has_piece(payload@, #[trigger] r@[k] as int),
        forall|k1: int, k2: int| 0 <= k1 < k2 < r@.len() ==> r@[k1] < r@[k2],
        forall|i: int|
            0 <= i < 8 * payload@.len() && spec_has_piece(payload@, i) ==> r@.contains(
                i as usize,
            ),
{
    let mut r: Vec<usize> = Vec::new();
    let mut byte_i: usize = 0;
    while byte_i < payload.len()
        invariant
            byte_i <= payload@.len(),
            forall|k: int|
                0 <= k < r@.len() ==> spec_has_piece(payload@, #[trigger] r@[k] as int),
            forall|k: int| 0 <= k < r@.len() ==> r@[k] < 8 * byte_i,
            forall|k1: int, k2: int| 0 <= k1 < k2 < r@.len() ==> r@[k1] < r@[k2],
            forall|i: int|
                0 <= i < 8 * byte_i && spec_has_piece(payload@, i) ==> r@.contains(i as usize),
        decreases payload@.len() - byte_i,
    {
        let byte = payload[byte_i];
        let mut bit: usize = 0;
        while bit < 8
            invariant
                bit <= 8,
                byte_i < payload@.len(),
                byte == payload@[byte_i as int],
                forall|k: int|
                    0 <= k < r@.len() ==> spec_has_piece(payload@, #[trigger] r@[k] as int),
                forall|k: int| 0 <= k < r@.len() ==> r@[k] < 8 * byte_i + bit,
                forall|k1: int, k2: int| 0 <= k1 < k2 < r@.len() ==> r@[k1] < r@[k2],
                forall|i: int|
                    0 <= i < 8 * byte_i + bit && spec_has_piece(payload@, i) ==> r@.contains(
                        i as usize,
                    ),
            decreases 8 - bit,
        {
            let weight: u8 = if bit == 0 {
                128
            } else if bit == 1 {
                64
            } else if bit == 2 {
                32
            } else if bit == 3 {
                16
            } else if bit == 4 {
                8
            } else if bit == 5 {
                4
            } else if bit == 6 {
                2
            } else {
                1
            };
            let idx = 8 * byte_i + bit;
            let ghost rold = r@;
            if (byte / weight) % 2 == 1 {
                proof {
                    assert(idx as int / 8 == byte_i as int) by (nonlinear_arith)
                        requires
                            idx == 8 * byte_i + bit,
                            0 <= bit < 8,
                    ;
                    assert(idx as int % 8 == bit as int) by (nonlinear_arith)
                        requires
                            idx == 8 * byte_i + bit,
                            0 <= bit < 8,
                    ;
                    assert(spec_has_piece(payload@, idx as int));
                }
                r.push(idx);
            } else {
                proof {
                    assert(idx as int / 8 == byte_i as int) by (nonlinear_arith)
                        requires
                            idx == 8 * byte_i + bit,
                            0 <= bit < 8,
                    ;
                    assert(idx as int % 8 == bit as int) by (nonlinear_arith)
                        requires
                            idx == 8 * byte_i + bit,
                            0 <= bit < 8,
                    ;
                    assert(!spec_has_piece(payload@, idx as int));
                }
            }
            proof {
                assert forall|i: int|
                    0 <= i < 8 * byte_i + bit + 1 && spec_has_piece(payload@, i) implies
                    r@.contains(i as usize) by {
                    if i < 8 * byte_i + bit {
                        assert(rold.contains(i as usize));
                        let w = choose|w: int| 0 <= w < rold.len() && rold[w] == i as usize;
                        assert(r@[w] == i as usize);
                    } else {
                        assert(i == idx);
                        assert(r@[r@.len() - 1] == idx);
                    }
                }
            }
            bit += 1;
        }
        byte_i += 1;
    }
    r
}

} // verus!
