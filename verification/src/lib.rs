//! Core of a BitTorrent-style peer-to-peer file-transfer client:
//! a bencode codec, the peer wire-protocol framing and session state
//! machine, and the piece-download bookkeeping with integrity checks.
//! All network and file I/O lives outside this crate; the functions
//! here compute over plain values and carry verified contracts.

use sha1::Digest;
use vstd::prelude::*;

pub mod bencode;
pub mod chunks;
pub mod download;
pub mod message;
pub mod peer;
pub mod torrent;
pub mod tracker;

verus! {

/// Digest of SHA-1 over a byte sequence. The digest is a function of the
/// input bytes alone; its value is not modelled here.
pub uninterp spec fn sha1_of(data: Seq<u8>) -> Seq<u8>;

/// Relies on sha1::Sha1 (via Digest::update / finalize): a 20-byte digest
/// computed from the input bytes alone.
#[verifier::external_body]
fn sha1_digest(data: &Vec<u8>) -> (r: Vec<u8>)
    ensures
        r@ == sha1_of(data@),
        r@.len() == 20,
{
    let mut hasher = sha1::Sha1::new();
    hasher.update(data.as_slice());
    hasher.finalize().to_vec()
}

/// A 20-byte SHA-1 digest.
pub struct Hash {
    bytes: Vec<u8>,
}

impl View for Hash {
    type V = Seq<u8>;

    closed spec fn view(&self) -> Seq<u8> {
        self.bytes@
    }
}

impl Hash {
    pub open spec fn wf(self) -> bool {
        self@.len() == 20
    }

    /// Hash the given bytes.
    pub fn new(data: &Vec<u8>) -> (r: Hash)
        ensures
            r@ == sha1_of(data@),
            r.wf(),
    {
        Hash { bytes: sha1_digest(data) }
    }

    pub fn as_bytes(&self) -> (r: &Vec<u8>)
        ensures
            r@ == self@,
    {
        &self.bytes
    }
}

/// The lowercase hex digit for `n` in `0 .. 16`.
pub open spec fn hex_digit(n: int) -> char {
    if n == 0 { '0' } else if n == 1 { '1' } else if n == 2 { '2' } else if n == 3 { '3' }
    else if n == 4 { '4' } else if n == 5 { '5' } else if n == 6 { '6' } else if n == 7 { '7' }
    else if n == 8 { '8' } else if n == 9 { '9' } else if n == 10 { 'a' } else if n == 11 { 'b' }
    else if n == 12 { 'c' } else if n == 13 { 'd' } else if n == 14 { 'e' } else { 'f' }
}

/// The lowercase hex rendering of a byte sequence, two digits per byte.
pub open spec fn spec_hex(s: Seq<u8>) -> Seq<char>
    decreases s,
{
    if s.len() == 0 {
        Seq::empty()
    } else {
        seq![hex_digit(s.first() as int / 16), hex_digit(s.first() as int % 16)] + spec_hex(
            s.drop_first(),
        )
    }
}

/// Relies on hex::encode: two lowercase hex digits per input byte, in
/// input order.
#[verifier::external_body]
pub(crate) fn hex_encode(b: &Vec<u8>) -> (r: String)
    ensures
        r@ == spec_hex(b@),
{
    hex::encode(b.as_slice())
}

} // verus!
