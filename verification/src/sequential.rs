//! The sequential reducer and the mathematical sum that all reducers share.

use vstd::prelude::*;

verus! {

/// The sum of the elements of `s`, as an unbounded natural number.
pub open spec fn total(s: Seq<u32>) -> nat
    decreases s.len(),
{
    if s.len() == 0 {
        0
    } else {
        total(s.drop_last()) + s.last() as nat
    }
}

/// The sum of a concatenation is the sum of the sums of its parts.
pub proof fn lemma_total_concat(a: Seq<u32>, b: Seq<u32>)
    ensures
        total(a + b) == total(a) + total(b),
    decreases b.len(),
{
    if b.len() == 0 {
        assert(a + b =~= a);
    } else {
        lemma_total_concat(a, b.drop_last());
        assert((a + b).drop_last() =~= a + b.drop_last());
        assert((a + b).last() == b.last());
    }
}

/// Splitting a sequence at any index splits its sum.
pub proof fn lemma_total_split(s: Seq<u32>, mid: int)
    requires
        0 <= mid <= s.len(),
    ensures
        total(s) == total(s.subrange(0, mid)) + total(s.subrange(mid, s.len() as int)),
{
    lemma_total_concat(s.subrange(0, mid), s.subrange(mid, s.len() as int));
    assert(s.subrange(0, mid) + s.subrange(mid, s.len() as int) =~= s);
}

/// Each element is below 2^32, so the sum is at most the length times
/// `u32::MAX`: a sequence of at most 2^32 elements always fits in 64 bits.
pub proof fn lemma_total_bound(s: Seq<u32>)
    ensures
        total(s) <= s.len() * 0xffff_ffff,
    decreases s.len(),
{
    if s.len() > 0 {
        lemma_total_bound(s.drop_last());
        assert(s.len() * 0xffff_ffff == s.drop_last().len() * 0xffff_ffff + 0xffff_ffff)
            by (nonlinear_arith)
            requires
                s.drop_last().len() == s.len() - 1,
        ;
    }
}

/// Widens one element to the accumulator's type.
pub fn widen(number: &u32) -> (wide: u64)
    ensures
        wide == *number,
{
    *number as u64
}

/// Adds the elements of `list` one after another into a 64-bit sum.
///
/// The sum has to fit in 64 bits, which holds of every list of at most 2^32
/// elements (`lemma_total_bound`). The empty list gives 0.
pub fn add_numbers_not_threaded(list: &[u32]) -> (sum: u64)
    requires
        total(list@) <= u64::MAX,
    ensures
        sum == total(list@),
{
    let mut sum: u64 = 0;
    let mut i: usize = 0;
    while i < list.len()
        invariant
            i <= list.len(),
            sum == total(list@.subrange(0, i as int)),
            total(list@) <= u64::MAX,
        decreases list.len() - i,
    {
        proof {
            let next = list@.subrange(0, i + 1);
            assert(next.drop_last() =~= list@.subrange(0, i as int));
            assert(next.last() == list@[i as int]);
            lemma_total_split(list@, i + 1);
        }
        sum = sum + widen(&list[i]);
        i = i + 1;
    }
    proof {
        assert(list@.subrange(0, i as int) =~= list@);
    }
    sum
}

/// Adds the elements of `list` as `add_numbers_not_threaded` does, for any
/// list: `None` exactly when the sum does not fit in 64 bits.
pub fn checked_add_numbers(list: &[u32]) -> (sum: Option<u64>)
    ensures
        sum.is_some() <==> total(list@) <= u64::MAX,
        sum.is_some() ==> sum.unwrap() == total(list@),
{
    let mut sum: u64 = 0;
    let mut i: usize = 0;
    while i < list.len()
        invariant
            i <= list.len(),
            sum == total(list@.subrange(0, i as int)),
        decreases list.len() - i,
    {
        proof {
            let next = list@.subrange(0, i + 1);
            assert(next.drop_last() =~= list@.subrange(0, i as int));
            assert(next.last() == list@[i as int]);
            lemma_total_split(list@, i + 1);
        }
        match sum.checked_add(widen(&list[i])) {
            Some(next) => {
                sum = next;
            },
            None => {
                return None;
            },
        }
        i = i + 1;
    }
    proof {
        assert(list@.subrange(0, i as int) =~= list@);
    }
    Some(sum)
}

} // verus!
