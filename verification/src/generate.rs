//! Lists of random numbers to reduce.

use vstd::prelude::*;
use rand::distributions::Uniform;
use rand::rngs::SmallRng;
use rand::{Rng, SeedableRng};

verus! {

/// rand's small, fast generator. Nothing is known of its state.
#[verifier::external_type_specification]
#[verifier::external_body]
pub struct ExSmallRng(SmallRng);

/// The numbers from `low` to `high`, both included.
#[derive(Clone, Copy, Debug, PartialEq, Eq, Structural)]
pub struct NumberRange {
    pub low: u32,
    pub high: u32,
}

impl NumberRange {
    /// The range holds at least one number.
    pub open spec fn wf(self) -> bool {
        self.low <= self.high
    }

    /// `number` lies in the range.
    pub open spec fn contains(self, number: u32) -> bool {
        self.low <= number <= self.high
    }

    /// The range from `low` to `high`, both included.
    pub fn new_inclusive(low: u32, high: u32) -> (range: NumberRange)
        requires
            low <= high,
        ensures
            range.wf(),
            range.low == low,
            range.high == high,
    {
        NumberRange { low, high }
    }
}

/// `SmallRng::from_entropy` of rand: a generator seeded by the operating
/// system. Nothing is claimed of it; the call fails only where the system
/// has no entropy to give.
#[verifier::external_body]
fn seeded_generator() -> (rng: SmallRng) {
    SmallRng::from_entropy()
}

/// `Rng::sample` of rand with `Uniform::new_inclusive(low, high)`: one draw
/// from the range.
///
/// Believed, not proved: rand documents the distribution as sampling from
/// the closed range, and as a panic where `low > high`. Which number comes
/// is left open.
#[verifier::external_body]
fn draw(rng: &mut SmallRng, range: &NumberRange) -> (number: u32)
    requires
        range.wf(),
    ensures
        range.contains(number),
{
    rng.sample(Uniform::new_inclusive(range.low, range.high))
}

/// A list of `count` numbers, each drawn from `range` by a freshly seeded
/// generator. Which numbers come differs from call to call.
pub fn generate_numbers(count: usize, range: NumberRange) -> (numbers: Vec<u32>)
    requires
        range.wf(),
    ensures
        numbers@.len() == count,
        forall|i: int| 0 <= i < count ==> range.contains(#[trigger] numbers@[i]),
{
    let mut rng = seeded_generator();
    let mut numbers: Vec<u32> = Vec::with_capacity(count);
    let mut i: usize = 0;
    while i < count
        invariant
            i <= count,
            range.wf(),
            numbers@.len() == i,
            forall|j: int| 0 <= j < i ==> range.contains(#[trigger] numbers@[j]),
        decreases count - i,
    {
        let number = draw(&mut rng, &range);
        numbers.push(number);
        i = i + 1;
    }
    numbers
}

} // verus!
