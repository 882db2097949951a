//! The reduction on rayon's work-stealing pool: no chunks and no threads of
//! the caller's own.

use vstd::prelude::*;
use rayon::iter::{IntoParallelRefIterator, ParallelIterator};
use crate::sequential::{total, widen};

verus! {

/// `par_iter`, `map` and `sum` of rayon on a slice: every element is widened
/// by `widen` and the pool adds them up in an order of its own choosing.
///
/// Believed, not proved: rayon documents `sum` as a reduction with `+` from
/// 0 over all items, so for integers whose sum fits, where `+` is associative
/// and no partial sum can overflow, the result is the sum of the elements.
#[verifier::external_body]
fn sum_on_pool(list: &[u32]) -> (sum: u64)
    requires
        total(list@) <= u64::MAX,
    ensures
        sum == total(list@),
{
    list.par_iter().map(widen).sum::<u64>()
}

/// Adds the elements of `list` on the work-stealing pool. The result is that
/// of the sequential reduction, however the pool splits the work.
pub fn add_numbers_rayon_threads(list: &[u32]) -> (sum: u64)
    requires
        total(list@) <= u64::MAX,
    ensures
        sum == total(list@),
{
    sum_on_pool(list)
}

} // verus!
