//! Cutting a range of indices into contiguous chunks, one per worker.
//!
//! A worker is only worth starting for at least `MIN_CHUNK_SIZE` elements, so
//! the number of workers asked for is capped by the length. The chunks are
//! then all of one size, but for the last, which takes what is left. Every
//! chunk is nonempty, so there can be fewer chunks than workers: with a
//! length of 10^11 + 1 and a million workers the chunks hold 100,001
//! elements each and 999,991 of them cover the range.

use vstd::prelude::*;

verus! {

/// The least number of elements that is worth a worker of its own.
pub const MIN_CHUNK_SIZE: usize = 100_000;

/// The half-open range `start..end` of indices into the sequence.
#[derive(Clone, Copy, Debug, PartialEq, Eq, Structural)]
pub struct Chunk {
    pub start: usize,
    pub end: usize,
}

impl Chunk {
    /// The number of indices in the chunk.
    pub open spec fn size(self) -> int {
        self.end - self.start
    }

    /// The chunk is a range inside a sequence of `length` elements.
    pub open spec fn within(self, length: int) -> bool {
        self.start <= self.end <= length
    }
}

/// The number of workers in use: the number asked for, capped by the number
/// of whole minimum chunks in the length.
pub open spec fn spec_effective_workers(length: int, requested: int) -> int {
    if requested <= length / (MIN_CHUNK_SIZE as int) {
        requested
    } else {
        length / (MIN_CHUNK_SIZE as int)
    }
}

/// `length / parts`, rounded up.
pub open spec fn div_ceil(length: int, parts: int) -> int
    recommends
        parts > 0,
{
    if length % parts == 0 {
        length / parts
    } else {
        length / parts + 1
    }
}

/// The size of every chunk but the last, for a positive number of workers.
pub open spec fn spec_chunk_size(length: int, workers: int) -> int
    recommends
        workers > 0,
{
    div_ceil(length, workers)
}

/// The chunk with index `i` among chunks of `size` elements.
pub open spec fn spec_chunk(length: int, size: int, i: int) -> Chunk {
    Chunk {
        start: (i * size) as usize,
        end: (if (i + 1) * size <= length {
            (i + 1) * size
        } else {
            length
        }) as usize,
    }
}

/// The chunks that `partition` gives: none where no worker is in use, else
/// as many chunks of the common size as it takes to cover the length.
pub open spec fn spec_chunks(length: int, requested: int) -> Seq<Chunk> {
    let workers = spec_effective_workers(length, requested);
    if workers <= 0 {
        Seq::empty()
    } else {
        let size = spec_chunk_size(length, workers);
        Seq::new(div_ceil(length, size) as nat, |i: int| spec_chunk(length, size, i))
    }
}

/// The chunks are nonempty, lie one behind the other without a gap, begin at
/// index 0 and end at `length`: every index below `length` is in exactly one
/// of them.
pub open spec fn covers(chunks: Seq<Chunk>, length: int) -> bool {
    &&& chunks.len() == 0 ==> length == 0
    &&& chunks.len() > 0 ==> chunks[0].start == 0 && chunks.last().end == length
    &&& forall|i: int| 0 <= i < chunks.len() ==> (#[trigger] chunks[i]).start < chunks[i].end
    &&& forall|i: int|
        0 <= i < chunks.len() - 1 ==> (#[trigger] chunks[i]).end == chunks[i + 1].start
}

/// `k` chunks of `size` elements fall short of `length` exactly when `k` is
/// below the rounded-up quotient.
pub proof fn lemma_div_ceil_bound(length: int, size: int, k: int)
    requires
        0 <= length,
        0 < size,
    ensures
        k * size < length <==> k < div_ceil(length, size),
        0 <= div_ceil(length, size),
{
    let q = length / size;
    let r = length % size;
    assert(length == size * q + r && 0 <= r < size) by {
        vstd::arithmetic::div_mod::lemma_fundamental_div_mod(length, size);
        vstd::arithmetic::div_mod::lemma_mod_bound(length, size);
    }
    assert(0 <= q) by (nonlinear_arith)
        requires
            length == size * q + r,
            0 <= r < size,
            0 <= length,
    ;
    if k < q {
        assert(k * size + size <= q * size) by (nonlinear_arith)
            requires
                k + 1 <= q,
                0 < size,
        ;
        assert(q * size == size * q) by (nonlinear_arith);
    } else {
        assert(q * size <= k * size) by (nonlinear_arith)
            requires
                q <= k,
                0 < size,
        ;
        assert(q * size == size * q) by (nonlinear_arith);
        if k > q {
            assert(q * size + size <= k * size) by (nonlinear_arith)
                requires
                    q + 1 <= k,
                    0 < size,
            ;
        }
    }
}

/// With a positive number of workers the common chunk size is positive for a
/// nonempty range, and that many chunks of it reach the length.
pub proof fn lemma_chunk_size_reaches(length: int, workers: int)
    requires
        0 <= length,
        0 < workers,
    ensures
        workers * spec_chunk_size(length, workers) >= length,
        length > 0 ==> 0 < spec_chunk_size(length, workers) <= length,
        length == 0 ==> spec_chunk_size(length, workers) == 0,
{
    let q = length / workers;
    let r = length % workers;
    assert(length == workers * q + r && 0 <= r < workers) by {
        vstd::arithmetic::div_mod::lemma_fundamental_div_mod(length, workers);
        vstd::arithmetic::div_mod::lemma_mod_bound(length, workers);
    }
    assert(0 <= q <= length && workers * (q + 1) == workers * q + workers && (length > 0 && r == 0
        ==> q > 0) && (r > 0 && q >= length ==> false)) by (nonlinear_arith)
        requires
            length == workers * q + r,
            0 <= r < workers,
            0 <= length,
    ;
}

/// What `partition` gives for a length and a number of workers asked for: no
/// more chunks than workers in use, and, where a worker is in use, chunks
/// that cover the range, all of the common size but the last, which is no
/// larger.
pub proof fn lemma_partition_covers(length: int, requested: int)
    requires
        0 <= length <= usize::MAX,
        0 <= requested,
    ensures
        spec_chunks(length, requested).len() <= spec_effective_workers(length, requested),
        spec_effective_workers(length, requested) > 0 ==> covers(
            spec_chunks(length, requested),
            length,
        ),
        forall|i: int|
            0 <= i < spec_chunks(length, requested).len() ==> (#[trigger] spec_chunks(
                length,
                requested,
            )[i]).within(length),
        forall|i: int|
            0 <= i < spec_chunks(length, requested).len() - 1 ==> (#[trigger] spec_chunks(
                length,
                requested,
            )[i]).size() == spec_chunk_size(length, spec_effective_workers(length, requested)),
        spec_chunks(length, requested).len() > 0 ==> 0 < spec_chunks(
            length,
            requested,
        ).last().size() <= spec_chunk_size(length, spec_effective_workers(length, requested)),
{
    let workers = spec_effective_workers(length, requested);
    assert(0 <= length / (MIN_CHUNK_SIZE as int) <= length) by (nonlinear_arith)
        requires
            0 <= length,
    ;
    if workers > 0 {
        assert(length > 0);
        let size = spec_chunk_size(length, workers);
        lemma_chunk_size_reaches(length, workers);
        let count = div_ceil(length, size);
        let chunks = spec_chunks(length, requested);
        lemma_div_ceil_bound(length, size, workers);
        lemma_div_ceil_bound(length, size, 0);
        lemma_div_ceil_bound(length, size, count - 1);
        lemma_div_ceil_bound(length, size, count);
        assert(chunks.len() == count);
        assert forall|i: int| 0 <= i < count implies {
            &&& (#[trigger] chunks[i]).start == i * size
            &&& chunks[i].start < chunks[i].end <= length
            &&& i < count - 1 ==> chunks[i].end == (i + 1) * size
            &&& i == count - 1 ==> chunks[i].end == length
        } by {
            lemma_div_ceil_bound(length, size, i);
            lemma_div_ceil_bound(length, size, i + 1);
            assert((i + 1) * size == i * size + size && 0 <= i * size) by (nonlinear_arith)
                requires
                    0 <= i,
                    0 < size,
            ;
            assert(chunks[i] == spec_chunk(length, size, i));
        }
        assert forall|i: int| 0 <= i < chunks.len() - 1 implies (#[trigger] chunks[i]).end
            == chunks[i + 1].start by {
            assert(chunks[i + 1].start == (i + 1) * size);
        }
        assert forall|i: int| 0 <= i < chunks.len() - 1 implies (#[trigger] chunks[i]).size()
            == size by {
            assert((i + 1) * size == i * size + size) by (nonlinear_arith);
        }
        assert(chunks.last() == chunks[count - 1]);
        assert(chunks.last().size() <= size) by {
            assert((count - 1 + 1) * size == (count - 1) * size + size) by (nonlinear_arith);
        }
    }
}

/// Where at most `MIN_CHUNK_SIZE` workers are asked for, every worker in use
/// gets a chunk: there are exactly as many chunks as workers.
pub proof fn lemma_chunk_per_worker(length: int, requested: int)
    requires
        0 <= length <= usize::MAX,
        0 <= requested <= MIN_CHUNK_SIZE,
    ensures
        spec_chunks(length, requested).len() == spec_effective_workers(length, requested),
{
    let workers = spec_effective_workers(length, requested);
    assert(0 <= length / (MIN_CHUNK_SIZE as int) && (length / (MIN_CHUNK_SIZE as int))
        * MIN_CHUNK_SIZE <= length) by (nonlinear_arith)
        requires
            0 <= length,
    ;
    if workers > 0 {
        let size = spec_chunk_size(length, workers);
        let q = length / workers;
        let r = length % workers;
        lemma_partition_covers(length, requested);
        lemma_chunk_size_reaches(length, workers);
        assert(length == workers * q + r && 0 <= r < workers) by {
            vstd::arithmetic::div_mod::lemma_fundamental_div_mod(length, workers);
            vstd::arithmetic::div_mod::lemma_mod_bound(length, workers);
        }
        assert(workers * MIN_CHUNK_SIZE <= length) by (nonlinear_arith)
            requires
                0 < workers <= length / (MIN_CHUNK_SIZE as int),
                (length / (MIN_CHUNK_SIZE as int)) * MIN_CHUNK_SIZE <= length,
        ;
        assert(q >= MIN_CHUNK_SIZE) by (nonlinear_arith)
            requires
                length == workers * q + r,
                0 <= r < workers,
                workers * MIN_CHUNK_SIZE <= length,
        ;
        assert((workers - 1) * size < length) by (nonlinear_arith)
            requires
                length == workers * q + r,
                0 <= r < workers,
                0 < workers <= q,
                size == if r == 0 {
                    q
                } else {
                    q + 1
                },
        ;
        lemma_div_ceil_bound(length, size, workers - 1);
    }
}

/// The number of workers in use for `length` elements when
/// `requested_workers` were asked for. Zero means: run sequentially.
pub fn effective_workers(length: usize, requested_workers: u32) -> (workers: usize)
    ensures
        workers == spec_effective_workers(length as int, requested_workers as int),
        workers <= requested_workers,
        workers * MIN_CHUNK_SIZE <= length,
{
    let by_length: usize = length / MIN_CHUNK_SIZE;
    proof {
        vstd::arithmetic::div_mod::lemma_fundamental_div_mod(length as int, MIN_CHUNK_SIZE as int);
        assert(by_length * MIN_CHUNK_SIZE == MIN_CHUNK_SIZE * by_length) by (nonlinear_arith);
    }
    let requested: usize = requested_workers as usize;
    if requested <= by_length {
        assert(requested * MIN_CHUNK_SIZE <= by_length * MIN_CHUNK_SIZE) by (nonlinear_arith)
            requires
                requested <= by_length,
        ;
        requested
    } else {
        by_length
    }
}

/// The common size of the chunks for `workers` workers: the quotient where
/// the length divides evenly, else one more.
pub fn chunk_size(length: usize, workers: usize) -> (size: usize)
    requires
        workers > 0,
    ensures
        size == spec_chunk_size(length as int, workers as int),
{
    proof {
        lemma_chunk_size_reaches(length as int, workers as int);
    }
    if length % workers == 0 {
        length / workers
    } else {
        length / workers + 1
    }
}

/// Cuts the indices `0..length` into chunks for at most `requested_workers`
/// workers, and returns the number of workers in use with the chunks in
/// ascending order.
///
/// With no worker in use (none asked for, or fewer than `MIN_CHUNK_SIZE`
/// elements) there are no chunks and the caller runs sequentially.
pub fn partition(length: usize, requested_workers: u32) -> (plan: (usize, Vec<Chunk>))
    ensures
        plan.0 == spec_effective_workers(length as int, requested_workers as int),
        plan.1@ == spec_chunks(length as int, requested_workers as int),
        plan.1@.len() <= plan.0,
        plan.0 == 0 <==> requested_workers == 0 || length < MIN_CHUNK_SIZE,
        plan.0 > 0 ==> covers(plan.1@, length as int),
        forall|i: int| 0 <= i < plan.1@.len() ==> (#[trigger] plan.1@[i]).within(length as int),
{
    let workers = effective_workers(length, requested_workers);
    let mut chunks: Vec<Chunk> = Vec::new();
    proof {
        lemma_partition_covers(length as int, requested_workers as int);
    }
    if workers == 0 {
        assert(chunks@ =~= spec_chunks(length as int, requested_workers as int));
        return (workers, chunks);
    }
    let size = chunk_size(length, workers);
    let ghost count = div_ceil(length as int, size as int);
    proof {
        lemma_chunk_size_reaches(length as int, workers as int);
    }
    let mut start: usize = 0;
    while start < length
        invariant
            0 < size,
            start <= length,
            count == div_ceil(length as int, size as int),
            chunks@.len() <= count,
            start < length ==> start == chunks@.len() * size,
            start == length ==> chunks@.len() == count,
            forall|i: int|
                0 <= i < chunks@.len() ==> chunks@[i] == spec_chunk(
                    length as int,
                    size as int,
                    i,
                ),
        decreases length - start,
    {
        let ghost k = chunks@.len() as int;
        proof {
            lemma_div_ceil_bound(length as int, size as int, k);
            lemma_div_ceil_bound(length as int, size as int, k + 1);
            assert((k + 1) * size == k * size + size) by (nonlinear_arith);
        }
        let end: usize = if length - start <= size {
            length
        } else {
            start + size
        };
        chunks.push(Chunk { start, end });
        start = end;
    }
    proof {
        assert(chunks@ =~= spec_chunks(length as int, requested_workers as int));
    }
    (workers, chunks)
}

} // verus!
