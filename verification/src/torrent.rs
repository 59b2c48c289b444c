//! Torrent metadata: the announce URL and the `info` dictionary with the
//! file name, piece length, piece hashes and total length. The identifier
//! ("info hash") is the SHA-1 digest of the canonical re-encoding of the
//! `info` dictionary, with its keys in sorted byte order.

use vstd::prelude::*;

use crate::bencode::{
    decode_prefix, dict_get, encode, spec_decode, spec_encode, spec_lookup,
    DecodeError, SpecValue, Value,
};
use crate::chunks::{lemma_chunk_index_bound, spec_chunk_size, spec_num_chunks};
use crate::sha1_of;

verus! {

/// Why decoded bytes could not be interpreted as torrent metadata.
#[derive(Debug, PartialEq, Eq, Structural, Clone, Copy)]
pub enum MetaError {
    /// The bencode layer rejected the input.
    Encoding(DecodeError),
    /// A required field is missing or has the wrong type.
    Shape,
    /// An integer field is negative, zero where positive is required, or
    /// too large for this machine.
    BadNumber,
    /// The pieces blob is not a whole number of 20-byte hashes.
    BadPieces,
    /// The number of piece hashes does not match
    /// `ceil(total length / piece length)`.
    Inconsistent,
}

/// The 20-byte piece hashes of a torrent, split out of the concatenated
/// blob stored in the metadata.
#[derive(Debug)]
pub struct Hashes {
    hashes: Vec<Vec<u8>>,
}

impl View for Hashes {
    type V = Seq<Seq<u8>>;

    closed spec fn view(&self) -> Seq<Seq<u8>> {
        Seq::new(self.hashes@.len(), |i: int| self.hashes@[i]@)
    }
}

/// The concatenation of a sequence of byte sequences, in order.
pub open spec fn spec_flatten(s: Seq<Seq<u8>>) -> Seq<u8>
    decreases s,
{
    if s.len() == 0 {
        Seq::empty()
    } else {
        s.first() + spec_flatten(s.drop_first())
    }
}

proof fn lemma_flatten_push(s: Seq<Seq<u8>>, x: Seq<u8>)
    ensures
        spec_flatten(s.push(x)) == spec_flatten(s) + x,
    decreases s,
{
    if s.len() == 0 {
        reveal_with_fuel(spec_flatten, 2);
        assert(s.push(x).drop_first() =~= Seq::<Seq<u8>>::empty());
        assert(spec_flatten(s.push(x)) =~= spec_flatten(s) + x);
    } else {
        assert(s.push(x).drop_first() =~= s.drop_first().push(x));
        lemma_flatten_push(s.drop_first(), x);
        assert(spec_flatten(s.push(x)) =~= spec_flatten(s) + x);
    }
}

/// An owned copy of a byte vector.
#[verifier::loop_isolation(false)]
fn copy_bytes(a: &Vec<u8>) -> (r: Vec<u8>)
    ensures
        r@ == a@,
{
    let mut out: Vec<u8> = Vec::new();
    let mut i: usize = 0;
    while i < a.len()
        invariant
            i <= a@.len(),
            out@ == a@.take(i as int),
        decreases a@.len() - i,
    {
        out.push(a[i]);
        proof {
            assert(a@.take(i + 1 as int) =~= a@.take(i as int).push(a@[i as int]));
        }
        i += 1;
    }
    proof {
        assert(a@.take(a@.len() as int) =~= a@);
    }
    out
}

impl Hashes {
    /// Every entry is exactly 20 bytes.
    pub open spec fn wf(self) -> bool {
        forall|i: int| 0 <= i < self@.len() ==> (#[trigger] self@[i]).len() == 20
    }

    /// Split a concatenated blob of 20-byte hashes. Fails exactly when the
    /// blob length is not a multiple of 20.
    #[verifier::loop_isolation(false)]
    pub fn from_concat(bytes: &Vec<u8>) -> (r: Result<Hashes, MetaError>)
        ensures
            match r {
                Ok(h) => bytes@.len() % 20 == 0 && h.wf() && h@.len() == bytes@.len() / 20
                    && forall|i: int|
                    0 <= i < h@.len() ==> #[trigger] h@[i] == bytes@.subrange(
                        20 * i,
                        20 * i + 20,
                    ),
                Err(e) => e == MetaError::BadPieces && bytes@.len() % 20 != 0,
            },
    {
        if bytes.len() % 20 != 0 {
            return Err(MetaError::BadPieces);
        }
        let count = bytes.len() / 20;
        let mut hashes: Vec<Vec<u8>> = Vec::new();
        let mut i: usize = 0;
        while i < count
            invariant
                i <= count,
                count == bytes@.len() / 20,
                bytes@.len() % 20 == 0,
                hashes@.len() == i,
                forall|k: int|
                    0 <= k < i ==> (#[trigger] hashes@[k])@ == bytes@.subrange(
                        20 * k,
                        20 * k + 20,
                    ),
            decreases count - i,
        {
            let mut one: Vec<u8> = Vec::new();
            let mut j: usize = 0;
            proof {
                vstd::arithmetic::div_mod::lemma_fundamental_div_mod(bytes@.len() as int, 20);
                assert(20 * (i + 1) <= bytes@.len()) by (nonlinear_arith)
                    requires
                        i < count,
                        bytes@.len() == 20 * count,
                ;
            }
            while j < 20
                invariant
                    j <= 20,
                    20 * i + 20 <= bytes@.len(),
                    one@ == bytes@.subrange(20 * i as int, 20 * i + j as int),
                decreases 20 - j,
            {
                one.push(bytes[20 * i + j]);
                proof {
                    assert(bytes@.subrange(20 * i as int, 20 * i + (j + 1) as int)
                        =~= bytes@.subrange(20 * i as int, 20 * i + j as int).push(
                        bytes@[20 * i + j as int],
                    ));
                }
                j += 1;
            }
            hashes.push(one);
            i += 1;
        }
        let h = Hashes { hashes };
        proof {
            assert(h@.len() == hashes@.len());
        }
        Ok(h)
    }

    /// The number of piece hashes.
    pub fn len(&self) -> (r: usize)
        ensures
            r == self@.len(),
    {
        self.hashes.len()
    }

    /// The hash at `index`.
    pub fn get(&self, index: usize) -> (r: &Vec<u8>)
        requires
            index < self@.len(),
        ensures
            r@ == self@[index as int],
    {
        &self.hashes[index]
    }

    /// The hashes re-joined into one blob, in order.
    #[verifier::loop_isolation(false)]
    pub fn concat(&self) -> (r: Vec<u8>)
        ensures
            r@ == spec_flatten(self@),
    {
        let mut out: Vec<u8> = Vec::new();
        let mut i: usize = 0;
        while i < self.hashes.len()
            invariant
                i <= self.hashes@.len(),
                self@.len() == self.hashes@.len(),
                out@ == spec_flatten(self@.take(i as int)),
            decreases self.hashes@.len() - i,
        {
            let h = &self.hashes[i];
            let mut j: usize = 0;
            let ghost base = out@;
            while j < h.len()
                invariant
                    j <= h@.len(),
                    out@ == base + h@.take(j as int),
                decreases h@.len() - j,
            {
                out.push(h[j]);
                proof {
                    assert(h@.take(j + 1 as int) =~= h@.take(j as int).push(h@[j as int]));
                }
                j += 1;
            }
            proof {
                assert(h@.take(h@.len() as int) =~= h@);
                assert(self@.take(i + 1 as int) =~= self@.take(i as int).push(self@[i as int]));
                lemma_flatten_push(self@.take(i as int), self@[i as int]);
                assert(self@[i as int] == h@);
            }
            i += 1;
        }
        proof {
            assert(self@.take(self@.len() as int) =~= self@);
        }
        out
    }
}

/// How the torrent stores its payload; this client handles the single-file
/// form, whose `info` dictionary carries a `length` field.
#[derive(Debug)]
pub enum Keys {
    SingleFile { length: usize },
}

/// The `info` dictionary of a torrent.
#[derive(Debug)]
pub struct Info {
    pub name: Vec<u8>,
    pub piece_length: usize,
    pub pieces: Hashes,
    pub keys: Keys,
}

/// A torrent metadata file: where to announce, and what to fetch.
#[derive(Debug)]
pub struct Torrent {
    pub announce: Vec<u8>,
    pub info: Info,
}

pub open spec fn key_announce() -> Seq<u8> {
    seq![97u8, 110u8, 110u8, 111u8, 117u8, 110u8, 99u8, 101u8]
}

pub open spec fn key_info() -> Seq<u8> {
    seq![105u8, 110u8, 102u8, 111u8]
}

pub open spec fn key_name() -> Seq<u8> {
    seq![110u8, 97u8, 109u8, 101u8]
}

pub open spec fn key_piece_length() -> Seq<u8> {
    seq![112u8, 105u8, 101u8, 99u8, 101u8, 32u8, 108u8, 101u8, 110u8, 103u8, 116u8, 104u8]
}

pub open spec fn key_pieces() -> Seq<u8> {
    seq![112u8, 105u8, 101u8, 99u8, 101u8, 115u8]
}

pub open spec fn key_length() -> Seq<u8> {
    seq![108u8, 101u8, 110u8, 103u8, 116u8, 104u8]
}

impl Info {
    /// The total length of the single file.
    pub open spec fn spec_length(self) -> usize {
        match self.keys {
            Keys::SingleFile { length } => length,
        }
    }

    /// Well-formed metadata: a positive piece length, 20-byte hashes, one
    /// hash per piece, and integer fields that fit the wire integer type.
    pub open spec fn wf(self) -> bool {
        &&& self.piece_length > 0
        &&& self.piece_length <= i64::MAX
        &&& self.spec_length() <= i64::MAX
        &&& self.pieces.wf()
        &&& self.pieces@.len() == spec_num_chunks(
            self.spec_length() as int,
            self.piece_length as int,
        )
    }

    /// The bencode value of this dictionary, keys in sorted byte order.
    pub open spec fn spec_value(self) -> SpecValue {
        SpecValue::Dictionary(
            seq![
                (key_length(), SpecValue::Integer(self.spec_length() as i64)),
                (key_name(), SpecValue::ByteString(self.name@)),
                (key_piece_length(), SpecValue::Integer(self.piece_length as i64)),
                (key_pieces(), SpecValue::ByteString(spec_flatten(self.pieces@))),
            ],
        )
    }

    /// The total length of the single file.
    pub fn length(&self) -> (r: usize)
        ensures
            r == self.spec_length(),
    {
        match self.keys {
            Keys::SingleFile { length } => length,
        }
    }
}

/// A ghost record of the fields a metadata file carries.
pub struct SpecMeta {
    pub announce: Seq<u8>,
    pub name: Seq<u8>,
    pub piece_length: int,
    pub pieces_blob: Seq<u8>,
    pub length: int,
}

/// Interpreting the fields of the `info` dictionary.
pub open spec fn spec_parse_info(
    ips: Seq<(Seq<u8>, SpecValue)>,
    announce: Seq<u8>,
) -> Result<SpecMeta, MetaError> {
    match spec_lookup(ips, key_name()) {
        Some(SpecValue::ByteString(name)) => match spec_lookup(ips, key_piece_length()) {
            Some(SpecValue::Integer(pl)) => match spec_lookup(ips, key_pieces()) {
                Some(SpecValue::ByteString(blob)) => match spec_lookup(ips, key_length()) {
                    Some(SpecValue::Integer(len)) => if !(1 <= pl && pl as int
                        <= usize::MAX as int) {
                        Err(MetaError::BadNumber)
                    } else if !(0 <= len && len as int <= usize::MAX as int) {
                        Err(MetaError::BadNumber)
                    } else if blob.len() % 20 != 0 {
                        Err(MetaError::BadPieces)
                    } else if blob.len() as int / 20 != spec_num_chunks(len as int, pl as int) {
                        Err(MetaError::Inconsistent)
                    } else {
                        Ok(
                            SpecMeta {
                                announce,
                                name,
                                piece_length: pl as int,
                                pieces_blob: blob,
                                length: len as int,
                            },
                        )
                    },
                    _ => Err(MetaError::Shape),
                },
                _ => Err(MetaError::Shape),
            },
            _ => Err(MetaError::Shape),
        },
        _ => Err(MetaError::Shape),
    }
}

/// Interpreting the root dictionary of a metadata file.
pub open spec fn spec_parse_root(ps: Seq<(Seq<u8>, SpecValue)>) -> Result<SpecMeta, MetaError> {
    match spec_lookup(ps, key_announce()) {
        Some(SpecValue::ByteString(announce)) => match spec_lookup(ps, key_info()) {
            Some(SpecValue::Dictionary(ips)) => spec_parse_info(ips, announce),
            _ => Err(MetaError::Shape),
        },
        _ => Err(MetaError::Shape),
    }
}

/// What loading a metadata file from bytes yields: the first bencode value
/// must be a dictionary of the required shape, with consistent numbers.
pub open spec fn spec_parse_meta(b: Seq<u8>) -> Result<SpecMeta, MetaError> {
    match spec_decode(b) {
        Err(e) => Err(MetaError::Encoding(e)),
        Ok(p) => match p.0 {
            SpecValue::Dictionary(ps) => spec_parse_root(ps),
            _ => Err(MetaError::Shape),
        },
    }
}

fn key_bytes_announce() -> (k: Vec<u8>)
    ensures
        k@ == key_announce(),
{
    let k: Vec<u8> = vec![97u8, 110u8, 110u8, 111u8, 117u8, 110u8, 99u8, 101u8];
    proof {
        assert(k@ =~= key_announce());
    }
    k
}

fn key_bytes_info() -> (k: Vec<u8>)
    ensures
        k@ == key_info(),
{
    let k: Vec<u8> = vec![105u8, 110u8, 102u8, 111u8];
    proof {
        assert(k@ =~= key_info());
    }
    k
}

fn key_bytes_name() -> (k: Vec<u8>)
    ensures
        k@ == key_name(),
{
    let k: Vec<u8> = vec![110u8, 97u8, 109u8, 101u8];
    proof {
        assert(k@ =~= key_name());
    }
    k
}

fn key_bytes_piece_length() -> (k: Vec<u8>)
    ensures
        k@ == key_piece_length(),
{
    let k: Vec<u8> = vec![
        112u8, 105u8, 101u8, 99u8, 101u8, 32u8, 108u8, 101u8, 110u8, 103u8, 116u8, 104u8,
    ];
    proof {
        assert(k@ =~= key_piece_length());
    }
    k
}

fn key_bytes_pieces() -> (k: Vec<u8>)
    ensures
        k@ == key_pieces(),
{
    let k: Vec<u8> = vec![112u8, 105u8, 101u8, 99u8, 101u8, 115u8];
    proof {
        assert(k@ =~= key_pieces());
    }
    k
}

fn key_bytes_length() -> (k: Vec<u8>)
    ensures
        k@ == key_length(),
{
    let k: Vec<u8> = vec![108u8, 101u8, 110u8, 103u8, 116u8, 104u8];
    proof {
        assert(k@ =~= key_length());
    }
    k
}

impl Torrent {
    /// Load torrent metadata from the bytes of a metadata file. The
    /// outcome, success or each error, follows `spec_parse_meta` exactly.
    pub fn from_bytes(data: &Vec<u8>) -> (r: Result<Torrent, MetaError>)
        ensures
            ({
                let s = spec_parse_meta(data@);
                match r {
                    Ok(t) => s matches Ok(m) && t.announce@ == m.announce && t.info.name@
                        == m.name && t.info.piece_length as int == m.piece_length
                        && t.info.spec_length() as int == m.length && t.info.pieces@.len()
                        == m.pieces_blob.len() / 20 && (forall|i: int|
                        0 <= i < t.info.pieces@.len() ==> #[trigger] t.info.pieces@[i]
                            == m.pieces_blob.subrange(20 * i, 20 * i + 20)) && t.info.wf(),
                    Err(e) => s matches Err(e2) && e2 == e,
                }
            }),
    {
        let v = match decode_prefix(data) {
            Ok(p) => p.0,
            Err(e) => {
                return Err(MetaError::Encoding(e));
            },
        };
        let ps = match v {
            Value::Dictionary(ps) => ps,
            _ => {
                return Err(MetaError::Shape);
            },
        };
        let akey = key_bytes_announce();
        let announce = match dict_get(&ps, &akey) {
            Some(Value::ByteString(a)) => copy_bytes(a),
            Some(_) => {
                return Err(MetaError::Shape);
            },
            None => {
                return Err(MetaError::Shape);
            },
        };
        let ikey = key_bytes_info();
        let ips = match dict_get(&ps, &ikey) {
            Some(Value::Dictionary(ips)) => ips,
            Some(_) => {
                return Err(MetaError::Shape);
            },
            None => {
                return Err(MetaError::Shape);
            },
        };
        let nkey = key_bytes_name();
        let name = match dict_get(ips, &nkey) {
            Some(Value::ByteString(n)) => copy_bytes(n),
            Some(_) => {
                return Err(MetaError::Shape);
            },
            None => {
                return Err(MetaError::Shape);
            },
        };
        let plkey = key_bytes_piece_length();
        let pl: i64 = match dict_get(ips, &plkey) {
            Some(Value::Integer(pl)) => *pl,
            Some(_) => {
                return Err(MetaError::Shape);
            },
            None => {
                return Err(MetaError::Shape);
            },
        };
        let pbkey = key_bytes_pieces();
        let blob = match dict_get(ips, &pbkey) {
            Some(Value::ByteString(pb)) => pb,
            Some(_) => {
                return Err(MetaError::Shape);
            },
            None => {
                return Err(MetaError::Shape);
            },
        };
        let lkey = key_bytes_length();
        let len: i64 = match dict_get(ips, &lkey) {
            Some(Value::Integer(l)) => *l,
            Some(_) => {
                return Err(MetaError::Shape);
            },
            None => {
                return Err(MetaError::Shape);
            },
        };
        if pl < 1 || pl as u64 > usize::MAX as u64 {
            return Err(MetaError::BadNumber);
        }
        if len < 0 || len as u64 > usize::MAX as u64 {
            return Err(MetaError::BadNumber);
        }
        let piece_length: usize = pl as usize;
        let length: usize = len as usize;
        let pieces = match Hashes::from_concat(blob) {
            Ok(h) => h,
            Err(e) => {
                return Err(e);
            },
        };
        let want: u128 = ((length as u128) + (piece_length as u128) - 1) / (piece_length
            as u128);
        if (pieces.len() as u128) != want {
            return Err(MetaError::Inconsistent);
        }
        Ok(
            Torrent {
                announce,
                info: Info { name, piece_length, pieces, keys: Keys::SingleFile { length } },
            },
        )
    }
}

/// The size of piece `piece` of a payload of `length` bytes split into
/// pieces of `piece_length` bytes: the piece length, or the remainder for
/// the final piece.
pub fn piece_size(piece: usize, length: usize, piece_length: usize) -> (r: usize)
    requires
        piece_length * piece <= length,
    ensures
        r as int == spec_chunk_size(piece as int, length as int, piece_length as int),
{
    let rem = length - piece_length * piece;
    if piece_length < rem {
        piece_length
    } else {
        rem
    }
}

/// The sum of the piece sizes at the given indices.
pub open spec fn spec_sum_sizes(idx: Seq<usize>, total: int, chunk: int) -> int
    decreases idx,
{
    if idx.len() == 0 {
        0
    } else {
        spec_chunk_size(idx.first() as int, total, chunk) + spec_sum_sizes(
            idx.drop_first(),
            total,
            chunk,
        )
    }
}

proof fn lemma_sum_sizes_push(idx: Seq<usize>, x: usize, total: int, chunk: int)
    ensures
        spec_sum_sizes(idx.push(x), total, chunk) == spec_sum_sizes(idx, total, chunk)
            + spec_chunk_size(x as int, total, chunk),
    decreases idx,
{
    if idx.len() == 0 {
        reveal_with_fuel(spec_sum_sizes, 2);
        assert(idx.push(x).drop_first() =~= Seq::<usize>::empty());
    } else {
        assert(idx.push(x).drop_first() =~= idx.drop_first().push(x));
        lemma_sum_sizes_push(idx.drop_first(), x, total, chunk);
    }
}

proof fn lemma_sum_sizes_nonneg(idx: Seq<usize>, total: int, chunk: int)
    requires
        forall|k: int| 0 <= k < idx.len() ==> chunk * (#[trigger] idx[k] as int) <= total,
        chunk >= 0,
    ensures
        spec_sum_sizes(idx, total, chunk) >= 0,
    decreases idx,
{
    if idx.len() > 0 {
        assert(forall|k: int|
            0 <= k < idx.drop_first().len() ==> chunk * (#[trigger] idx.drop_first()[k] as int)
                <= total) by {
            assert(forall|k: int|
                0 <= k < idx.drop_first().len() ==> idx.drop_first()[k] == idx[k + 1]);
        }
        lemma_sum_sizes_nonneg(idx.drop_first(), total, chunk);
        assert(chunk * (idx[0] as int) <= total);
    }
}

proof fn lemma_sum_sizes_split(idx: Seq<usize>, k: int, total: int, chunk: int)
    requires
        0 <= k <= idx.len(),
    ensures
        spec_sum_sizes(idx, total, chunk) == spec_sum_sizes(idx.take(k), total, chunk)
            + spec_sum_sizes(idx.skip(k), total, chunk),
    decreases k,
{
    if k == 0 {
        assert(idx.take(0) =~= Seq::<usize>::empty());
        assert(idx.skip(0) =~= idx);
    } else {
        lemma_sum_sizes_split(idx.drop_first(), k - 1, total, chunk);
        assert(idx.take(k).drop_first() =~= idx.drop_first().take(k - 1));
        assert(idx.take(k).first() == idx.first());
        assert(idx.skip(k) =~= idx.drop_first().skip(k - 1));
    }
}

impl Torrent {
    /// The size of the given piece: the full piece length for every piece
    /// but possibly the last, which holds the remainder.
    pub fn piece_size(&self, piece: usize) -> (r: usize)
        requires
            self.info.wf(),
            piece < self.info.pieces@.len(),
        ensures
            r as int == spec_chunk_size(
                piece as int,
                self.info.spec_length() as int,
                self.info.piece_length as int,
            ),
            0 < r <= self.info.piece_length,
    {
        proof {
            lemma_chunk_index_bound(
                piece as int,
                self.info.spec_length() as int,
                self.info.piece_length as int,
            );
        }
        let length = self.info.length();
        piece_size(piece, length, self.info.piece_length)
    }

    /// The combined size of the pieces at the given indices.
    #[verifier::loop_isolation(false)]
    pub fn pieces_size(&self, pieces: &Vec<usize>) -> (r: usize)
        requires
            self.info.wf(),
            forall|i: int|
                0 <= i < pieces@.len() ==> (#[trigger] pieces@[i]) < self.info.pieces@.len(),
            spec_sum_sizes(
                pieces@,
                self.info.spec_length() as int,
                self.info.piece_length as int,
            ) <= usize::MAX,
        ensures
            r as int == spec_sum_sizes(
                pieces@,
                self.info.spec_length() as int,
                self.info.piece_length as int,
            ),
    {
        let ghost total = self.info.spec_length() as int;
        let ghost chunk = self.info.piece_length as int;
        proof {
            assert forall|k: int| 0 <= k < pieces@.len() implies chunk * (
            #[trigger] pieces@[k] as int) <= total by {
                lemma_chunk_index_bound(pieces@[k] as int, total, chunk);
            }
        }
        let mut acc: usize = 0;
        let mut i: usize = 0;
        while i < pieces.len()
            invariant
                i <= pieces@.len(),
                acc as int == spec_sum_sizes(pieces@.take(i as int), total, chunk),
            decreases pieces@.len() - i,
        {
            let sz = self.piece_size(pieces[i]);
            proof {
                assert(pieces@.take(i + 1 as int) =~= pieces@.take(i as int).push(
                    pieces@[i as int],
                ));
                lemma_sum_sizes_push(pieces@.take(i as int), pieces@[i as int], total, chunk);
                lemma_sum_sizes_split(pieces@, i + 1, total, chunk);
                assert(forall|k: int|
                    0 <= k < pieces@.skip(i + 1).len() ==> #[trigger] pieces@.skip(i + 1)[k]
                        == pieces@[k + i + 1]);
                lemma_sum_sizes_nonneg(pieces@.skip(i + 1), total, chunk);
            }
            acc = acc + sz;
            i += 1;
        }
        proof {
            assert(pieces@.take(pieces@.len() as int) =~= pieces@);
        }
        acc
    }

    /// The bencode value of the `info` dictionary, keys in sorted order.
    fn info_value(&self) -> (r: Value)
        requires
            self.info.wf(),
        ensures
            r.model() == self.info.spec_value(),
    {
        let mut pairs: Vec<(Vec<u8>, Value)> = Vec::new();
        pairs.push((key_bytes_length(), Value::Integer(self.info.length() as i64)));
        pairs.push((key_bytes_name(), Value::ByteString(copy_bytes(&self.info.name))));
        pairs.push((key_bytes_piece_length(), Value::Integer(self.info.piece_length as i64)));
        pairs.push((key_bytes_pieces(), Value::ByteString(self.info.pieces.concat())));
        let r = Value::Dictionary(pairs);
        proof {
            crate::bencode::lemma_pair_models_of_index(r->Dictionary_0@);
            assert(r.model()->Dictionary_0 =~= self.info.spec_value()->Dictionary_0);
        }
        r
    }

    /// The torrent's identifier: the SHA-1 digest of the canonical
    /// re-encoding of the `info` dictionary.
    pub fn info_hash(&self) -> (r: crate::Hash)
        requires
            self.info.wf(),
        ensures
            r@ == sha1_of(spec_encode(self.info.spec_value())),
            r.wf(),
    {
        let v = self.info_value();
        let e = encode(&v);
        crate::Hash::new(&e)
    }

    /// The piece hashes rendered as lowercase hex strings.
    pub fn piece_hashes(&self) -> (r: Vec<String>)
        ensures
            r@.len() == self.info.pieces@.len(),
            forall|i: int|
                0 <= i < r@.len() ==> (#[trigger] r@[i])@ == crate::spec_hex(
                    self.info.pieces@[i],
                ),
    {
        let mut out: Vec<String> = Vec::new();
        let mut i: usize = 0;
        while i < self.info.pieces.len()
            invariant
                i <= self.info.pieces@.len(),
                out@.len() == i,
                forall|k: int|
                    0 <= k < i ==> (#[trigger] out@[k])@ == crate::spec_hex(
                        self.info.pieces@[k],
                    ),
            decreases self.info.pieces@.len() - i,
        {
            out.push(crate::hex_encode(self.info.pieces.get(i)));
            i += 1;
        }
        out
    }
}

} // verus!
