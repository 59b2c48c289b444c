//! Partitioning a byte range of a given total size into fixed-size chunks:
//! every chunk is full-size except possibly the last, which holds the
//! remainder. Pieces partition the file this way, and blocks partition a
//! piece the same way with a different chunk size.

use vstd::prelude::*;

verus! {

/// The number of chunks needed to cover `total` bytes: `ceil(total / chunk)`.
pub open spec fn spec_num_chunks(total: int, chunk: int) -> int {
    (total + chunk - 1) / chunk
}

/// The size of chunk `i`: full, or whatever remains at the end.
pub open spec fn spec_chunk_size(i: int, total: int, chunk: int) -> int {
    if total - chunk * i < chunk {
        total - chunk * i
    } else {
        chunk
    }
}

/// The sum of the sizes of the first `k` chunks.
pub open spec fn spec_sum_chunks(k: int, total: int, chunk: int) -> int
    decreases k,
{
    if k <= 0 {
        0
    } else {
        spec_sum_chunks(k - 1, total, chunk) + spec_chunk_size(k - 1, total, chunk)
    }
}

/// The concatenation of the first `k` chunks of `data`.
pub open spec fn spec_concat_chunks(k: int, data: Seq<u8>, chunk: int) -> Seq<u8>
    decreases k,
{
    if k <= 0 {
        Seq::empty()
    } else {
        spec_concat_chunks(k - 1, data, chunk) + data.subrange(
            chunk * (k - 1),
            chunk * (k - 1) + spec_chunk_size(k - 1, data.len() as int, chunk),
        )
    }
}

/// The first `k` chunks cover exactly the first `min(total, k * chunk)` bytes.
proof fn lemma_sum_chunks_prefix(k: int, total: int, chunk: int)
    requires
        chunk > 0,
        total >= 0,
        k >= 0,
        k * chunk <= total + chunk,
    ensures
        spec_sum_chunks(k, total, chunk) == if k * chunk < total {
            k * chunk
        } else {
            total
        },
    decreases k,
{
    if k <= 0 {
        assert(k * chunk == 0) by (nonlinear_arith)
            requires
                k == 0,
        ;
    } else {
        assert((k - 1) * chunk == k * chunk - chunk) by (nonlinear_arith);
        assert(chunk * (k - 1) == (k - 1) * chunk) by (nonlinear_arith);
        lemma_sum_chunks_prefix(k - 1, total, chunk);
        assert(spec_sum_chunks(k, total, chunk) == spec_sum_chunks(k - 1, total, chunk)
            + spec_chunk_size(k - 1, total, chunk));
        let prev = spec_sum_chunks(k - 1, total, chunk);
        let sz = spec_chunk_size(k - 1, total, chunk);
        if k * chunk < total {
            assert(prev == k * chunk - chunk);
            assert(sz == chunk);
        } else if chunk * (k - 1) < total {
            assert(prev == chunk * (k - 1));
            assert(sz == total - chunk * (k - 1));
        } else {
            assert(chunk * (k - 1) == total);
            assert(prev == total);
            assert(sz == 0);
        }
    }
}

/// Chunk `i` of `data` is the slice from `chunk * i` to `chunk * i` plus its
/// size; concatenating chunks `0 .. k` yields the first `min(len, k * chunk)`
/// bytes of `data`.
proof fn lemma_concat_chunks_prefix(k: int, data: Seq<u8>, chunk: int)
    requires
        chunk > 0,
        k >= 0,
        k * chunk <= data.len() + chunk,
    ensures
        spec_concat_chunks(k, data, chunk) == if k * chunk < data.len() {
            data.take(k * chunk)
        } else {
            data.take(data.len() as int)
        },
    decreases k,
{
    let total = data.len() as int;
    if k == 0 {
        assert(k * chunk == 0) by (nonlinear_arith)
            requires
                k == 0,
        ;
        assert(spec_concat_chunks(0, data, chunk) =~= data.take(0));
    } else {
        assert((k - 1) * chunk == k * chunk - chunk) by (nonlinear_arith);
        assert(chunk * (k - 1) == (k - 1) * chunk) by (nonlinear_arith);
        lemma_concat_chunks_prefix(k - 1, data, chunk);
        let lo = chunk * (k - 1);
        let sz = spec_chunk_size(k - 1, total, chunk);
        let hi = if k * chunk < total {
            k * chunk
        } else {
            total
        };
        if k * chunk < total {
            assert(sz == chunk);
            assert(lo + sz == hi);
        } else if lo < total {
            assert(lo + sz == hi);
        } else {
            assert(lo == total);
            assert(sz == 0);
            assert(lo + sz == hi);
        }
        assert(spec_concat_chunks(k - 1, data, chunk) == data.take(lo));
        assert(data.take(lo) + data.subrange(lo, hi) =~= data.take(hi));
    }
}

/// `ceil(total / chunk) * chunk` is at least `total` and the previous
/// multiple is strictly below `total`.
pub proof fn lemma_num_chunks_bounds(total: int, chunk: int)
    requires
        chunk > 0,
        total >= 0,
    ensures
        spec_num_chunks(total, chunk) >= 0,
        spec_num_chunks(total, chunk) * chunk >= total,
        total > 0 ==> (spec_num_chunks(total, chunk) - 1) * chunk < total,
        spec_num_chunks(total, chunk) * chunk <= total + chunk,
        total == 0 ==> spec_num_chunks(total, chunk) == 0,
{
    if total == 0 {
        vstd::arithmetic::div_mod::lemma_basic_div(chunk - 1, chunk);
    }
    let n = spec_num_chunks(total, chunk);
    vstd::arithmetic::div_mod::lemma_fundamental_div_mod(total + chunk - 1, chunk);
    let r = (total + chunk - 1) % chunk;
    vstd::arithmetic::div_mod::lemma_mod_bound(total + chunk - 1, chunk);
    assert(total + chunk - 1 == chunk * n + r);
    assert(n * chunk == chunk * n) by (nonlinear_arith);
    assert((n - 1) * chunk == chunk * n - chunk) by (nonlinear_arith);
    assert(n >= 0) by (nonlinear_arith)
        requires
            chunk * n == total + chunk - 1 - r,
            0 <= r < chunk,
            total >= 0,
            chunk > 0,
    ;
    assert(n * chunk >= total);
    assert(n * chunk <= total + chunk - 1);
    if total > 0 {
        assert((n - 1) * chunk < total);
    }
}

/// Law: the chunk sizes partition the total exactly. Their number is
/// `ceil(total / chunk)`, every chunk is at most `chunk` bytes, all but the
/// last are exactly `chunk` bytes, the last is positive, and the sizes sum
/// to `total`.
pub proof fn lemma_chunks_partition(total: int, chunk: int)
    requires
        chunk > 0,
        total >= 0,
    ensures
        ({
            let n = spec_num_chunks(total, chunk);
            &&& n >= 0
            &&& spec_sum_chunks(n, total, chunk) == total
            &&& forall|i: int|
                0 <= i < n ==> 0 < #[trigger] spec_chunk_size(i, total, chunk) <= chunk
            &&& forall|i: int|
                0 <= i < n - 1 ==> #[trigger] spec_chunk_size(i, total, chunk) == chunk
        }),
{
    let n = spec_num_chunks(total, chunk);
    lemma_num_chunks_bounds(total, chunk);
    lemma_sum_chunks_prefix(n, total, chunk);
    assert forall|i: int| 0 <= i < n implies 0 < #[trigger] spec_chunk_size(i, total, chunk)
        <= chunk by {
        assert(total > 0);
        assert(i * chunk <= (n - 1) * chunk) by (nonlinear_arith)
            requires
                i <= n - 1,
                chunk > 0,
        ;
        assert(chunk * i == i * chunk) by (nonlinear_arith);
        assert(chunk * i < total);
    }
    assert forall|i: int| 0 <= i < n - 1 implies #[trigger] spec_chunk_size(i, total, chunk)
        == chunk by {
        assert((i + 1) * chunk <= (n - 1) * chunk) by (nonlinear_arith)
            requires
                i + 1 <= n - 1,
                chunk > 0,
        ;
        assert(chunk * i == (i + 1) * chunk - chunk) by (nonlinear_arith);
    }
}

/// Law: concatenating all chunks of `data`, in order, reproduces `data`.
pub proof fn lemma_chunks_concat(data: Seq<u8>, chunk: int)
    requires
        chunk > 0,
    ensures
        spec_concat_chunks(spec_num_chunks(data.len() as int, chunk), data, chunk) == data,
{
    let total = data.len() as int;
    let n = spec_num_chunks(total, chunk);
    lemma_num_chunks_bounds(total, chunk);
    lemma_concat_chunks_prefix(n, data, chunk);
    assert(data.take(total) =~= data);
    if n * chunk < total {
        assert(false);
    }
}

/// Every chunk index below the chunk count starts strictly inside the data
/// and ends within it.
pub proof fn lemma_chunk_index_bound(i: int, total: int, chunk: int)
    requires
        chunk > 0,
        total >= 0,
        0 <= i < spec_num_chunks(total, chunk),
    ensures
        chunk * i < total,
        0 < spec_chunk_size(i, total, chunk) <= chunk,
        chunk * i + spec_chunk_size(i, total, chunk) <= total,
{
    let n = spec_num_chunks(total, chunk);
    lemma_num_chunks_bounds(total, chunk);
    assert(total > 0);
    assert(i * chunk <= (n - 1) * chunk) by (nonlinear_arith)
        requires
            i <= n - 1,
            chunk > 0,
    ;
    assert(chunk * i == i * chunk) by (nonlinear_arith);
}

} // verus!
