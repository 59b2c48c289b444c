//! Bookkeeping for the multi-peer piece download: splitting a piece into
//! blocks, the shared queue of pending piece indices, the integrity check
//! of an assembled piece, and the final reassembly of completed pieces
//! into the output byte stream in index order.

use vstd::multiset::Multiset;
use vstd::prelude::*;

use crate::chunks::{
    lemma_chunk_index_bound, spec_chunk_size, spec_num_chunks,
};
use crate::peer::ProtocolError;
use crate::sha1_of;

verus! {

/// The request granularity of the wire protocol: no block exceeds this
/// many bytes.
pub const BLOCK_MAX: usize = 16384;

/// The number of blocks a piece of `piece_size` bytes is split into:
/// `ceil(piece_size / BLOCK_MAX)`.
pub fn num_blocks(piece_size: usize) -> (r: usize)
    ensures
        r as int == spec_num_chunks(piece_size as int, BLOCK_MAX as int),
{
    let n128 = ((piece_size as u128) + (BLOCK_MAX as u128) - 1) / (BLOCK_MAX as u128);
    proof {
        assert(n128 <= piece_size as u128) by (nonlinear_arith)
            requires
                n128 == ((piece_size as u128) as int + 16384 - 1) / 16384,
                piece_size >= 0,
        ;
    }
    n128 as usize
}

/// The size of block `block` of a piece of `piece_size` bytes: the block
/// maximum, or the remainder for the final block.
pub fn block_size(block: usize, piece_size: usize) -> (r: usize)
    requires
        BLOCK_MAX * block <= piece_size,
    ensures
        r as int == spec_chunk_size(block as int, piece_size as int, BLOCK_MAX as int),
{
    let rem = piece_size - BLOCK_MAX * block;
    if BLOCK_MAX < rem {
        BLOCK_MAX
    } else {
        rem
    }
}

/// The block requests for one piece, in offset order: piece index, byte
/// offset, and length, ready for the wire. Block `i` starts at offset
/// `i * BLOCK_MAX` and all blocks are full-size except possibly the last.
#[verifier::loop_isolation(false)]
pub fn block_plan(piece: u32, piece_size: usize) -> (r: Vec<(u32, u32, u32)>)
    requires
        piece_size <= u32::MAX,
    ensures
        r@.len() == spec_num_chunks(piece_size as int, BLOCK_MAX as int),
        forall|i: int|
            0 <= i < r@.len() ==> (#[trigger] r@[i]).0 == piece && r@[i].1 as int == BLOCK_MAX
                as int * i && r@[i].2 as int == spec_chunk_size(
                i,
                piece_size as int,
                BLOCK_MAX as int,
            ),
{
    let n = num_blocks(piece_size);
    let mut r: Vec<(u32, u32, u32)> = Vec::new();
    let mut i: usize = 0;
    while i < n
        invariant
            i <= n,
            n as int == spec_num_chunks(piece_size as int, BLOCK_MAX as int),
            r@.len() == i,
            forall|k: int|
                0 <= k < i ==> (#[trigger] r@[k]).0 == piece && r@[k].1 as int == BLOCK_MAX
                    as int * k && r@[k].2 as int == spec_chunk_size(
                    k,
                    piece_size as int,
                    BLOCK_MAX as int,
                ),
        decreases n - i,
    {
        proof {
            lemma_chunk_index_bound(i as int, piece_size as int, BLOCK_MAX as int);
        }
        let begin = BLOCK_MAX * i;
        let len = block_size(i, piece_size);
        r.push((piece, begin as u32, len as u32));
        i += 1;
    }
    r
}

/// The shared queue of piece indices that still need downloading.
pub struct WorkQueue {
    items: Vec<usize>,
}

impl View for WorkQueue {
    type V = Seq<usize>;

    closed spec fn view(&self) -> Seq<usize> {
        self.items@
    }
}

impl WorkQueue {
    /// A queue holding the given piece indices, front first.
    pub fn new(pieces: Vec<usize>) -> (q: WorkQueue)
        ensures
            q@ == pieces@,
    {
        WorkQueue { items: pieces }
    }

    /// How many piece indices remain queued.
    pub fn len(&self) -> (r: usize)
        ensures
            r == self@.len(),
    {
        self.items.len()
    }

    /// Whether the queue is drained.
    pub fn is_empty(&self) -> (r: bool)
        ensures
            r == (self@.len() == 0),
    {
        self.items.len() == 0
    }

    /// Push a piece index to the back of the queue.
    pub fn push_back(&mut self, piece: usize)
        ensures
            final(self)@ == old(self)@.push(piece),
    {
        self.items.push(piece);
    }

    /// Pop the piece index at the front, if any.
    pub fn pop_front(&mut self) -> (r: Option<usize>)
        ensures
            match r {
                Some(p) => old(self)@.len() > 0 && p == old(self)@.first() && final(self)@
                    == old(self)@.drop_first(),
                None => old(self)@.len() == 0 && final(self)@ == old(self)@,
            },
    {
        if self.items.len() == 0 {
            return None;
        }
        let p = self.items.remove(0);
        proof {
            assert(self.items@ =~= old(self)@.drop_first());
        }
        Some(p)
    }

    /// Take the first queued piece that the peer advertises, rotating the
    /// pieces it skipped to the back of the queue, as a worker that pops,
    /// tests and re-queues would. Returns nothing, and leaves the queue as
    /// it was, when the peer advertises no queued piece.
    #[verifier::loop_isolation(false)]
    pub fn next_for_peer(&mut self, advertised: &Vec<usize>) -> (r: Option<usize>)
        ensures
            match r {
                Some(p) => advertised@.contains(p) && exists|k: int|
                    0 <= k < old(self)@.len() && p == old(self)@[k] && (forall|j: int|
                        0 <= j < k ==> !advertised@.contains(#[trigger] old(self)@[j]))
                        && final(self)@ == old(self)@.subrange(k + 1, old(self)@.len() as int)
                        + old(self)@.subrange(0, k),
                None => final(self)@ == old(self)@ && forall|j: int|
                    0 <= j < old(self)@.len() ==> !advertised@.contains(
                        #[trigger] old(self)@[j],
                    ),
            },
    {
        let n = self.items.len();
        let mut t: usize = 0;
        while t < n
            invariant
                t <= n,
                n == old(self)@.len(),
                self.items@ == old(self)@.subrange(t as int, n as int) + old(self)@.subrange(
                    0,
                    t as int,
                ),
                forall|j: int| 0 <= j < t ==> !advertised@.contains(#[trigger] old(self)@[j]),
            decreases n - t,
        {
            let x = self.items.remove(0);
            proof {
                assert(x == old(self)@[t as int]);
            }
            if contains_piece(advertised, x) {
                proof {
                    assert(self.items@ =~= old(self)@.subrange(t + 1 as int, n as int) + old(
                        self,
                    )@.subrange(0, t as int));
                }
                return Some(x);
            }
            self.items.push(x);
            t += 1;
            proof {
                assert(self.items@ =~= old(self)@.subrange(t as int, n as int) + old(
                    self,
                )@.subrange(0, t as int));
            }
        }
        proof {
            assert(self.items@ =~= old(self)@);
        }
        None
    }
}

/// Whether the list of advertised pieces holds `piece`.
pub fn contains_piece(advertised: &Vec<usize>, piece: usize) -> (r: bool)
    ensures
        r == advertised@.contains(piece),
{
    let mut i: usize = 0;
    while i < advertised.len()
        invariant
            i <= advertised@.len(),
            forall|j: int| 0 <= j < i ==> advertised@[j] != piece,
        decreases advertised@.len() - i,
    {
        if advertised[i] == piece {
            return true;
        }
        i += 1;
    }
    proof {
        assert(!advertised@.contains(piece));
    }
    false
}

/// A failure during the download of one piece. Integrity violations are
/// kept apart from protocol and transport failures.
#[derive(Debug, PartialEq, Eq, Structural, Clone, Copy)]
pub enum DownloadError {
    /// The assembled piece's digest differs from the expected hash.
    Integrity { piece: usize },
    /// The peer broke the wire protocol.
    Peer(ProtocolError),
    /// The connection failed, ended early, or timed out.
    Network,
}

/// Check an assembled piece against its expected 20-byte hash. Succeeds
/// exactly when the SHA-1 digest of the bytes equals the expected hash;
/// otherwise the failure is an integrity error for this piece, distinct
/// from every protocol or transport failure.
pub fn check_piece(blocks: &Vec<u8>, expected: &Vec<u8>, piece: usize) -> (r: Result<
    (),
    DownloadError,
>)
    ensures
        r is Ok <==> sha1_of(blocks@) == expected@,
        r is Err ==> r->Err_0 == (DownloadError::Integrity { piece }),
{
    let h = crate::Hash::new(blocks);
    if crate::bencode::bytes_eq(h.as_bytes(), expected) {
        Ok(())
    } else {
        Err(DownloadError::Integrity { piece })
    }
}

/// A piece that arrived in full and passed its integrity check.
pub struct DownloadedPiece {
    pub number: usize,
    pub blocks: Vec<u8>,
}

/// The pieces are in ascending index order.
pub open spec fn spec_sorted(s: Seq<DownloadedPiece>) -> bool {
    forall|i: int, j: int| 0 <= i < j < s.len() ==> s[i].number <= s[j].number
}

/// The bytes of the pieces, concatenated in the order given.
pub open spec fn spec_concat_pieces(s: Seq<DownloadedPiece>) -> Seq<u8>
    decreases s,
{
    if s.len() == 0 {
        Seq::empty()
    } else {
        s.first().blocks@ + spec_concat_pieces(s.drop_first())
    }
}

/// Sort completed pieces by piece index. The result is ascending and
/// holds exactly the given pieces.
#[verifier::loop_isolation(false)]
pub fn sort_by_number(pieces: Vec<DownloadedPiece>) -> (r: Vec<DownloadedPiece>)
    ensures
        spec_sorted(r@),
        r@.to_multiset() == pieces@.to_multiset(),
{
    broadcast use vstd::seq_lib::group_to_multiset_ensures;

    let mut src = pieces;
    let mut out: Vec<DownloadedPiece> = Vec::new();
    while src.len() > 0
        invariant
            out@.to_multiset().add(src@.to_multiset()) == pieces@.to_multiset(),
            spec_sorted(out@),
            forall|i: int, j: int|
                0 <= i < out@.len() && 0 <= j < src@.len() ==> out@[i].number
                    <= src@[j].number,
        decreases src@.len(),
    {
        let mut mi: usize = 0;
        let mut k: usize = 1;
        while k < src.len()
            invariant
                mi < k <= src@.len(),
                forall|j: int| 0 <= j < k ==> src@[mi as int].number <= src@[j].number,
            decreases src@.len() - k,
        {
            if src[k].number < src[mi].number {
                mi = k;
            }
            k += 1;
        }
        let ghost old_src = src@;
        let ghost old_out = out@;
        let x = src.remove(mi);
        out.push(x);
        proof {
            assert(out@.to_multiset() =~= old_out.to_multiset().insert(x));
            assert(old_src.to_multiset() =~= src@.to_multiset().insert(x));
            assert(out@.to_multiset().add(src@.to_multiset()) =~= old_out.to_multiset().add(
                old_src.to_multiset(),
            ));
            assert forall|i: int, j: int|
                0 <= i < out@.len() && 0 <= j < src@.len() implies out@[i].number
                <= src@[j].number by {
                if j < mi {
                    assert(src@[j] == old_src[j]);
                } else {
                    assert(src@[j] == old_src[j + 1]);
                }
            }
        }
    }
    proof {
        assert(src@.to_multiset() =~= Multiset::<DownloadedPiece>::empty());
        assert(out@.to_multiset() =~= pieces@.to_multiset());
    }
    out
}

/// Concatenate the pieces' bytes in the order given.
#[verifier::loop_isolation(false)]
pub fn concat_pieces(pieces: &Vec<DownloadedPiece>) -> (r: Vec<u8>)
    ensures
        r@ == spec_concat_pieces(pieces@),
{
    let mut out: Vec<u8> = Vec::new();
    let mut i: usize = 0;
    while i < pieces.len()
        invariant
            i <= pieces@.len(),
            out@ == spec_concat_pieces(pieces@.take(i as int)),
        decreases pieces@.len() - i,
    {
        let p = &pieces[i];
        let mut j: usize = 0;
        let ghost base = out@;
        while j < p.blocks.len()
            invariant
                j <= p.blocks@.len(),
                out@ == base + p.blocks@.take(j as int),
            decreases p.blocks@.len() - j,
        {
            out.push(p.blocks[j]);
            proof {
                assert(p.blocks@.take(j + 1 as int) =~= p.blocks@.take(j as int).push(
                    p.blocks@[j as int],
                ));
            }
            j += 1;
        }
        proof {
            assert(p.blocks@.take(p.blocks@.len() as int) =~= p.blocks@);
            assert(pieces@.take(i + 1 as int) =~= pieces@.take(i as int).push(
                pieces@[i as int],
            ));
            lemma_concat_pieces_push(pieces@.take(i as int), pieces@[i as int]);
        }
        i += 1;
    }
    proof {
        assert(pieces@.take(pieces@.len() as int) =~= pieces@);
    }
    out
}

proof fn lemma_concat_pieces_push(s: Seq<DownloadedPiece>, x: DownloadedPiece)
    ensures
        spec_concat_pieces(s.push(x)) == spec_concat_pieces(s) + x.blocks@,
    decreases s,
{
    if s.len() == 0 {
        reveal_with_fuel(spec_concat_pieces, 2);
        assert(s.push(x).drop_first() =~= Seq::<DownloadedPiece>::empty());
        assert(spec_concat_pieces(s.push(x)) =~= spec_concat_pieces(s) + x.blocks@);
    } else {
        assert(s.push(x).drop_first() =~= s.drop_first().push(x));
        lemma_concat_pieces_push(s.drop_first(), x);
        assert(spec_concat_pieces(s.push(x)) =~= spec_concat_pieces(s) + x.blocks@);
    }
}

/// Reassemble completed pieces into the final byte stream: sort by piece
/// index and concatenate. The output is the concatenation of some
/// ascending arrangement of exactly the given pieces, whatever order they
/// finished in.
pub fn assemble(pieces: Vec<DownloadedPiece>) -> (r: Vec<u8>)
    ensures
        exists|s: Seq<DownloadedPiece>|
            #![all_triggers]
            s.to_multiset() == pieces@.to_multiset() && spec_sorted(s) && r@
                == spec_concat_pieces(s),
{
    let sorted = sort_by_number(pieces);
    let out = concat_pieces(&sorted);
    proof {
        let s = sorted@;
        assert(s.to_multiset() == pieces@.to_multiset() && spec_sorted(s) && out@
            == spec_concat_pieces(s));
    }
    out
}

/// The bytes piece `number` of `file` covers, when the file is cut into
/// pieces of `piece_length` bytes.
pub open spec fn spec_file_piece(file: Seq<u8>, number: int, piece_length: int) -> Seq<u8> {
    file.subrange(
        piece_length * number,
        piece_length * number + spec_chunk_size(number, file.len() as int, piece_length),
    )
}

/// The pieces hold every index `0 .. n` once, in ascending order, and
/// each carries exactly its slice of `file`.
pub open spec fn spec_covers(s: Seq<DownloadedPiece>, file: Seq<u8>, piece_length: int) -> bool {
    &&& s.len() == spec_num_chunks(file.len() as int, piece_length)
    &&& spec_sorted(s)
    &&& forall|i: int, j: int| 0 <= i < j < s.len() ==> s[i].number != s[j].number
    &&& forall|i: int| 0 <= i < s.len() ==> (#[trigger] s[i]).number < s.len()
    &&& forall|i: int|
        0 <= i < s.len() ==> (#[trigger] s[i]).blocks@ == spec_file_piece(
            file,
            s[i].number as int,
            piece_length,
        )
}

proof fn lemma_sorted_distinct_lower(s: Seq<DownloadedPiece>, i: int)
    requires
        spec_sorted(s),
        forall|a: int, b: int| 0 <= a < b < s.len() ==> s[a].number != s[b].number,
        0 <= i < s.len(),
    ensures
        s[i].number >= i,
    decreases i,
{
    if i > 0 {
        lemma_sorted_distinct_lower(s, i - 1);
        assert(s[i - 1].number <= s[i].number);
        assert(s[i - 1].number != s[i].number);
    }
}

proof fn lemma_sorted_distinct_upper(s: Seq<DownloadedPiece>, i: int)
    requires
        spec_sorted(s),
        forall|a: int, b: int| 0 <= a < b < s.len() ==> s[a].number != s[b].number,
        forall|a: int| 0 <= a < s.len() ==> (#[trigger] s[a]).number < s.len(),
        0 <= i < s.len(),
    ensures
        s[i].number <= i,
    decreases s.len() - i,
{
    if i < s.len() - 1 {
        lemma_sorted_distinct_upper(s, i + 1);
        assert(s[i].number <= s[i + 1].number);
        assert(s[i].number != s[i + 1].number);
    }
}

/// Law: when completed pieces cover every index exactly once, in order,
/// and each holds its exact slice of the file, their concatenation is the
/// file, byte for byte.
pub proof fn lemma_reassembly(s: Seq<DownloadedPiece>, file: Seq<u8>, piece_length: int)
    requires
        piece_length > 0,
        spec_covers(s, file, piece_length),
    ensures
        spec_concat_pieces(s) == file,
{
    assert forall|i: int| 0 <= i < s.len() implies (#[trigger] s[i]).number == i by {
        lemma_sorted_distinct_lower(s, i);
        lemma_sorted_distinct_upper(s, i);
    }
    lemma_reassembly_suffix(s, file, piece_length, 0);
    assert(s.skip(0) =~= s);
    assert(file.skip(0) =~= file);
}

proof fn lemma_reassembly_suffix(
    s: Seq<DownloadedPiece>,
    file: Seq<u8>,
    piece_length: int,
    t: int,
)
    requires
        piece_length > 0,
        s.len() == spec_num_chunks(file.len() as int, piece_length),
        forall|i: int| 0 <= i < s.len() ==> (#[trigger] s[i]).number == i,
        forall|i: int|
            0 <= i < s.len() ==> (#[trigger] s[i]).blocks@ == spec_file_piece(
                file,
                i,
                piece_length,
            ),
        0 <= t <= s.len(),
        piece_length * t <= file.len() + piece_length,
    ensures
        spec_concat_pieces(s.skip(t)) == if piece_length * t < file.len() {
            file.skip(piece_length * t)
        } else {
            Seq::<u8>::empty()
        },
    decreases s.len() - t,
{
    if t == s.len() {
        // Past the last piece the remaining file is empty: n pieces of
        // piece_length bytes reach at least file.len().
        crate::chunks::lemma_num_chunks_bounds(file.len() as int, piece_length);
        assert(piece_length * t >= file.len()) by (nonlinear_arith)
            requires
                t == spec_num_chunks(file.len() as int, piece_length),
                spec_num_chunks(file.len() as int, piece_length) * piece_length >= file.len(),
                piece_length > 0,
        ;
        assert(s.skip(t) =~= Seq::<DownloadedPiece>::empty());
    } else {
        lemma_chunk_index_bound(t, file.len() as int, piece_length);
        assert(piece_length * (t + 1) == piece_length * t + piece_length) by (nonlinear_arith);
        lemma_reassembly_suffix(s, file, piece_length, t + 1);
        let tail = s.skip(t);
        assert(tail.first() == s[t]);
        assert(tail.drop_first() =~= s.skip(t + 1));
        let lo = piece_length * t;
        let sz = spec_chunk_size(t, file.len() as int, piece_length);
        assert(s[t].blocks@ == file.subrange(lo, lo + sz));
        if piece_length * (t + 1) < file.len() {
            assert(sz == piece_length);
            assert(file.subrange(lo, lo + sz) + file.skip(lo + sz) =~= file.skip(lo));
        } else {
            assert(lo + sz == file.len());
            assert(file.subrange(lo, lo + sz) + Seq::<u8>::empty() =~= file.skip(lo));
        }
    }
}

} // verus!
