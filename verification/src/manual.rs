//! The reduction over fixed chunks, one worker per chunk.
//!
//! The library prepares the work and finishes it: `split_for_workers` cuts
//! the list and copies every chunk into a buffer that a worker can own, and
//! `add_partial_sums` adds up what the workers hand back. Whoever runs the
//! workers, on threads or in turn, gets the sequential sum
//! (`lemma_partial_sums_add_up`); `add_numbers_in_chunks` runs them in turn.

use vstd::prelude::*;
use crate::partition::{covers, partition, spec_chunks, spec_effective_workers, Chunk};
use crate::sequential::{
    add_numbers_not_threaded,
    lemma_total_concat,
    lemma_total_split,
    total,
};

verus! {

/// The elements of `s` that `chunk` selects.
pub open spec fn chunk_of(s: Seq<u32>, chunk: Chunk) -> Seq<u32> {
    s.subrange(chunk.start as int, chunk.end as int)
}

/// The buffers are the chunks' elements, chunk by chunk.
pub open spec fn buffers_hold(buffers: Seq<Vec<u32>>, s: Seq<u32>, chunks: Seq<Chunk>) -> bool {
    &&& buffers.len() == chunks.len()
    &&& forall|i: int| 0 <= i < buffers.len() ==> (#[trigger] buffers[i])@ == chunk_of(s, chunks[i])
}

/// The sum of a sequence of 64-bit partial sums, as an unbounded natural
/// number.
pub open spec fn total_of_partials(p: Seq<u64>) -> nat
    decreases p.len(),
{
    if p.len() == 0 {
        0
    } else {
        total_of_partials(p.drop_last()) + p.last() as nat
    }
}

/// The partial sums are the sums of the chunks' elements, chunk by chunk.
pub open spec fn partials_of(partials: Seq<u64>, s: Seq<u32>, chunks: Seq<Chunk>) -> bool {
    &&& partials.len() == chunks.len()
    &&& forall|i: int|
        0 <= i < partials.len() ==> (#[trigger] partials[i]) as nat == total(
            chunk_of(s, chunks[i]),
        )
}

/// What the chunked reduction returns for `requested` workers: the
/// sequential sum where no worker is in use, else the sum over the chunks of
/// each chunk's sum.
pub open spec fn chunked_total(s: Seq<u32>, requested: int) -> nat {
    if spec_effective_workers(s.len() as int, requested) <= 0 {
        total(s)
    } else {
        sum_over_chunks(s, spec_chunks(s.len() as int, requested))
    }
}

/// The sum over `chunks` of the sum of the elements that each selects.
pub open spec fn sum_over_chunks(s: Seq<u32>, chunks: Seq<Chunk>) -> nat
    decreases chunks.len(),
{
    if chunks.len() == 0 {
        0
    } else {
        sum_over_chunks(s, chunks.drop_last()) + total(chunk_of(s, chunks.last()))
    }
}

/// Chunks that lie one behind the other from index 0 sum to the sum of the
/// elements before the last chunk's end.
pub proof fn lemma_sum_over_prefix(s: Seq<u32>, chunks: Seq<Chunk>)
    requires
        chunks.len() > 0,
        chunks[0].start == 0,
        forall|i: int| 0 <= i < chunks.len() ==> (#[trigger] chunks[i]).within(s.len() as int),
        forall|i: int|
            0 <= i < chunks.len() - 1 ==> (#[trigger] chunks[i]).end == chunks[i + 1].start,
    ensures
        sum_over_chunks(s, chunks) == total(s.subrange(0, chunks.last().end as int)),
    decreases chunks.len(),
{
    let last = chunks.last();
    let front = chunks.drop_last();
    if front.len() == 0 {
        assert(sum_over_chunks(s, front) == 0);
    } else {
        assert forall|i: int| 0 <= i < front.len() - 1 implies (#[trigger] front[i]).end == front[i
            + 1].start by {
            assert(front[i] == chunks[i]);
        }
        assert forall|i: int| 0 <= i < front.len() implies (#[trigger] front[i]).within(
            s.len() as int,
        ) by {
            assert(front[i] == chunks[i]);
        }
        lemma_sum_over_prefix(s, front);
        assert(front.last() == chunks[chunks.len() - 2]);
        assert(front.last().end == last.start);
    }
    lemma_total_concat(s.subrange(0, last.start as int), chunk_of(s, last));
    assert(s.subrange(0, last.start as int) + chunk_of(s, last) =~= s.subrange(0, last.end as int));
}

/// Over chunks that cover the sequence, the chunks' sums add up to the sum
/// of the whole sequence: every element is counted exactly once.
pub proof fn lemma_sum_over_cover(s: Seq<u32>, chunks: Seq<Chunk>)
    requires
        covers(chunks, s.len() as int),
    ensures
        sum_over_chunks(s, chunks) == total(s),
{
    if chunks.len() > 0 {
        assert forall|i: int| 0 <= i < chunks.len() implies (#[trigger] chunks[i]).within(
            s.len() as int,
        ) by {
            lemma_cover_within(chunks, s.len() as int, i);
        }
        lemma_sum_over_prefix(s, chunks);
        assert(s.subrange(0, s.len() as int) =~= s);
    } else {
        assert(s =~= Seq::empty());
    }
}

/// Every chunk of a cover lies inside the range that is covered.
pub proof fn lemma_cover_within(chunks: Seq<Chunk>, length: int, i: int)
    requires
        covers(chunks, length),
        0 <= i < chunks.len(),
    ensures
        chunks[i].within(length),
    decreases chunks.len() - i,
{
    if i < chunks.len() - 1 {
        lemma_cover_within(chunks, length, i + 1);
        assert(chunks[i].end == chunks[i + 1].start);
    }
}

/// Partial sums that are the chunks' sums add up to the sum over the chunks.
pub proof fn lemma_partials_total(partials: Seq<u64>, s: Seq<u32>, chunks: Seq<Chunk>)
    requires
        partials_of(partials, s, chunks),
    ensures
        total_of_partials(partials) == sum_over_chunks(s, chunks),
    decreases chunks.len(),
{
    if chunks.len() > 0 {
        assert forall|i: int| 0 <= i < partials.len() - 1 implies (#[trigger] partials.drop_last()[i]) as nat
            == total(chunk_of(s, chunks.drop_last()[i])) by {
            assert(partials.drop_last()[i] == partials[i]);
        }
        lemma_partials_total(partials.drop_last(), s, chunks.drop_last());
        assert(partials.last() == partials[partials.len() - 1]);
    }
}

/// A prefix of the partial sums sums to no more than all of them, and one
/// partial sum more adds that partial sum.
pub proof fn lemma_partials_prefix(p: Seq<u64>, end: int)
    requires
        0 < end <= p.len(),
    ensures
        total_of_partials(p.subrange(0, end)) == total_of_partials(p.subrange(0, end - 1)) + p[end
            - 1] as nat,
        total_of_partials(p.subrange(0, end)) <= total_of_partials(p),
    decreases p.len() - end,
{
    assert(p.subrange(0, end).drop_last() =~= p.subrange(0, end - 1));
    if end < p.len() {
        lemma_partials_prefix(p, end + 1);
    } else {
        assert(p.subrange(0, end) =~= p);
    }
}

/// The sum of a concatenation of partial sums is the sum of the two sums.
pub proof fn lemma_partials_concat(a: Seq<u64>, b: Seq<u64>)
    ensures
        total_of_partials(a + b) == total_of_partials(a) + total_of_partials(b),
    decreases b.len(),
{
    if b.len() == 0 {
        assert(a + b =~= a);
    } else {
        lemma_partials_concat(a, b.drop_last());
        assert((a + b).drop_last() =~= a + b.drop_last());
        assert((a + b).last() == b.last());
    }
}

/// Taking one partial sum out of the sequence takes its value off the sum.
pub proof fn lemma_partials_remove(p: Seq<u64>, i: int)
    requires
        0 <= i < p.len(),
    ensures
        total_of_partials(p) == total_of_partials(p.remove(i)) + p[i] as nat,
{
    let before = p.subrange(0, i);
    let after = p.subrange(i + 1, p.len() as int);
    assert(p =~= before.push(p[i]) + after);
    assert(p.remove(i) =~= before + after);
    assert(before.push(p[i]).drop_last() =~= before);
    lemma_partials_concat(before.push(p[i]), after);
    lemma_partials_concat(before, after);
}

/// The order of the partial sums does not matter: two sequences that hold
/// the same partial sums, each as often as the other, have the same sum.
pub proof fn lemma_partials_any_order(p: Seq<u64>, q: Seq<u64>)
    requires
        p.to_multiset() == q.to_multiset(),
    ensures
        total_of_partials(p) == total_of_partials(q),
    decreases p.len(),
{
    broadcast use vstd::multiset::group_multiset_axioms;

    vstd::seq_lib::to_multiset_len(p);
    vstd::seq_lib::to_multiset_len(q);
    if p.len() > 0 {
        let x = p.last();
        let front = p.drop_last();
        assert(p =~= front.push(x));
        vstd::seq_lib::to_multiset_build(front, x);
        vstd::seq_lib::to_multiset_contains(q, x);
        assert(q.to_multiset().count(x) > 0);
        let i = choose|i: int| 0 <= i < q.len() && q[i] == x;
        vstd::seq_lib::to_multiset_remove(q, i);
        assert(front.to_multiset() =~= q.remove(i).to_multiset());
        lemma_partials_any_order(front, q.remove(i));
        lemma_partials_remove(q, i);
    }
}

/// Whatever computed the chunks' sums: over chunks that cover the sequence
/// they add up to the sequential sum.
pub proof fn lemma_partial_sums_add_up(partials: Seq<u64>, s: Seq<u32>, chunks: Seq<Chunk>)
    requires
        covers(chunks, s.len() as int),
        partials_of(partials, s, chunks),
    ensures
        total_of_partials(partials) == total(s),
{
    lemma_partials_total(partials, s, chunks);
    lemma_sum_over_cover(s, chunks);
}

/// The same holds of the chunks' sums in whatever order the workers
/// finished: `arrived` holds what `partials` holds, in an order of its own.
pub proof fn lemma_partial_sums_add_up_in_any_order(
    arrived: Seq<u64>,
    partials: Seq<u64>,
    s: Seq<u32>,
    chunks: Seq<Chunk>,
)
    requires
        covers(chunks, s.len() as int),
        partials_of(partials, s, chunks),
        arrived.to_multiset() == partials.to_multiset(),
    ensures
        total_of_partials(arrived) == total(s),
{
    lemma_partials_any_order(arrived, partials);
    lemma_partial_sums_add_up(partials, s, chunks);
}

/// The chunked reduction agrees with the sequential one, for every sequence
/// and every number of workers asked for, zero included.
pub proof fn lemma_chunked_total_is_total(s: Seq<u32>, requested: int)
    requires
        s.len() <= usize::MAX,
        0 <= requested,
    ensures
        chunked_total(s, requested) == total(s),
{
    if spec_effective_workers(s.len() as int, requested) > 0 {
        crate::partition::lemma_partition_covers(s.len() as int, requested);
        lemma_sum_over_cover(s, spec_chunks(s.len() as int, requested));
    }
}

/// With no worker asked for, the chunked reduction is the sequential one by
/// definition.
pub proof fn lemma_zero_workers_is_sequential(s: Seq<u32>)
    ensures
        chunked_total(s, 0) == total(s),
{
    assert(0 <= s.len() as int / (crate::partition::MIN_CHUNK_SIZE as int)) by (nonlinear_arith)
        requires
            0 <= s.len() as int,
    ;
}

/// Equal sequences give equal sums, sequentially and in chunks: a reduction
/// that is run again on the same elements returns what it returned before.
pub proof fn lemma_same_elements_same_sum(a: Seq<u32>, b: Seq<u32>, requested: int)
    requires
        a =~= b,
    ensures
        total(a) == total(b),
        chunked_total(a, requested) == chunked_total(b, requested),
{
}

/// Copies the elements that `chunk` selects into a buffer of its own.
pub fn copy_chunk(list: &[u32], chunk: &Chunk) -> (buffer: Vec<u32>)
    requires
        chunk.within(list@.len() as int),
    ensures
        buffer@ == chunk_of(list@, *chunk),
{
    vstd::slice::slice_to_vec(vstd::slice::slice_subrange(list, chunk.start, chunk.end))
}

/// Cuts `list` for at most `max_threads` workers and copies every chunk into
/// a buffer of its own, in the chunks' order.
///
/// No buffer comes back exactly when no worker is in use: none asked for, or
/// a list of fewer than `MIN_CHUNK_SIZE` elements. The caller then runs
/// sequentially.
pub fn split_for_workers(list: &[u32], max_threads: u32) -> (buffers: Vec<Vec<u32>>)
    ensures
        buffers_hold(buffers@, list@, spec_chunks(list@.len() as int, max_threads as int)),
        buffers@.len() <= spec_effective_workers(list@.len() as int, max_threads as int),
        buffers@.len() == 0 <==> spec_effective_workers(list@.len() as int, max_threads as int)
            == 0,
{
    let plan = partition(list.len(), max_threads);
    let chunks = plan.1;
    let mut buffers: Vec<Vec<u32>> = Vec::with_capacity(chunks.len());
    let mut i: usize = 0;
    while i < chunks.len()
        invariant
            i <= chunks@.len(),
            buffers@.len() == i,
            forall|j: int| 0 <= j < chunks@.len() ==> (#[trigger] chunks@[j]).within(
                list@.len() as int,
            ),
            forall|j: int| 0 <= j < i ==> (#[trigger] buffers@[j])@ == chunk_of(list@, chunks@[j]),
        decreases chunks@.len() - i,
    {
        let buffer = copy_chunk(list, &chunks[i]);
        buffers.push(buffer);
        i = i + 1;
    }
    buffers
}

/// Adds up the partial sums that the workers handed back.
pub fn add_partial_sums(partials: &[u64]) -> (sum: u64)
    requires
        total_of_partials(partials@) <= u64::MAX,
    ensures
        sum == total_of_partials(partials@),
{
    let mut sum: u64 = 0;
    let mut i: usize = 0;
    while i < partials.len()
        invariant
            i <= partials@.len(),
            sum == total_of_partials(partials@.subrange(0, i as int)),
            total_of_partials(partials@) <= u64::MAX,
        decreases partials@.len() - i,
    {
        proof {
            let next = partials@.subrange(0, i + 1);
            assert(next.drop_last() =~= partials@.subrange(0, i as int));
            lemma_partials_prefix(partials@, i + 1);
        }
        sum = sum + partials[i];
        i = i + 1;
    }
    proof {
        assert(partials@.subrange(0, i as int) =~= partials@);
    }
    sum
}

/// The chunked reduction with the workers run one after another on the
/// calling thread: the list is cut for at most `max_threads` workers, every
/// chunk is copied and summed by itself, and the partial sums are added up.
/// With no worker in use the list is summed sequentially.
pub fn add_numbers_in_chunks(list: &[u32], max_threads: u32) -> (sum: u64)
    requires
        total(list@) <= u64::MAX,
    ensures
        sum == chunked_total(list@, max_threads as int),
        sum == total(list@),
{
    let ghost chunks = spec_chunks(list@.len() as int, max_threads as int);
    proof {
        assert(list@.len() == list.len());
        lemma_chunked_total_is_total(list@, max_threads as int);
        crate::partition::lemma_partition_covers(list@.len() as int, max_threads as int);
    }
    let buffers = split_for_workers(list, max_threads);
    if buffers.len() == 0 {
        return add_numbers_not_threaded(list);
    }
    let mut partials: Vec<u64> = Vec::with_capacity(buffers.len());
    let mut i: usize = 0;
    while i < buffers.len()
        invariant
            i <= buffers@.len(),
            partials@.len() == i,
            total(list@) <= u64::MAX,
            buffers_hold(buffers@, list@, chunks),
            forall|j: int|
                0 <= j < chunks.len() ==> (#[trigger] chunks[j]).within(list@.len() as int),
            forall|j: int|
                0 <= j < i ==> (#[trigger] partials@[j]) as nat == total(chunk_of(list@, chunks[j])),
        decreases buffers@.len() - i,
    {
        proof {
            lemma_chunk_total_bound(list@, chunks[i as int]);
        }
        let partial = add_numbers_not_threaded(buffers[i].as_slice());
        partials.push(partial);
        i = i + 1;
    }
    proof {
        lemma_partial_sums_add_up(partials@, list@, chunks);
    }
    add_partial_sums(partials.as_slice())
}

/// A chunk's sum is no larger than the sum of the whole sequence.
pub proof fn lemma_chunk_total_bound(s: Seq<u32>, chunk: Chunk)
    requires
        chunk.within(s.len() as int),
    ensures
        total(chunk_of(s, chunk)) <= total(s),
{
    lemma_total_split(s, chunk.end as int);
    lemma_total_split(s.subrange(0, chunk.end as int), chunk.start as int);
    assert(s.subrange(0, chunk.end as int).subrange(chunk.start as int, chunk.end as int)
        =~= chunk_of(s, chunk));
}

} // verus!
