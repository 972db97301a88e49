//! Random choices, drawn from the `rand` crate.
//!
//! Verus does not look inside `rand`. What this module states about its calls
//! is taken from the crate's documentation and source and is not proved here.

use rand::rngs::ThreadRng;
use rand::seq::IndexedRandom;
use vstd::prelude::*;

verus! {

/// `rand::rngs::ThreadRng`, the generator that each thread owns. Opaque to
/// the proofs: nothing is known of the numbers it yields.
#[verifier::external_type_specification]
#[verifier::external_body]
pub struct ExThreadRng(rand::rngs::ThreadRng);

/// `sample` holds `count` entries of `items`, taken at pairwise different
/// positions, in some order.
pub open spec fn is_sample_of<T>(sample: Seq<T>, items: Seq<T>, count: int) -> bool {
    exists|positions: Seq<int>|
        {
            &&& positions.len() == count
            &&& sample.len() == count
            &&& forall|k: int|
                0 <= k < count ==> 0 <= #[trigger] positions[k] < items.len() && sample[k]
                    == items[positions[k]]
            &&& forall|k: int, l: int|
                0 <= k < l < count ==> #[trigger] positions[k] != #[trigger] positions[l]
        }
}

/// Calls `rand::rng`, which hands out the calling thread's generator. Nothing
/// is claimed of it. (`rand` panics here if the operating system yields no
/// entropy for the first seed.)
#[verifier::external_body]
pub(crate) fn thread_rng() -> (rng: ThreadRng) {
    rand::rng()
}

/// Calls `IndexedRandom::choose_multiple` on `items` and collects what it
/// yields. As `rand` documents it, the call picks `amount` entries (all of
/// them, if there are fewer) at different positions and yields them in random
/// order; only that is claimed, not which order comes out.
#[verifier::external_body]
pub(crate) fn choose_multiple(rng: &mut ThreadRng, items: &Vec<(i32, i32)>, amount: usize) -> (sample:
    Vec<(i32, i32)>)
    ensures
        is_sample_of(
            sample@,
            items@,
            if amount <= items.len() {
                amount as int
            } else {
                items.len() as int
            },
        ),
{
    items.choose_multiple(rng, amount).copied().collect()
}

/// Calls `IndexedRandom::choose` on `items`. As `rand` documents it, the call
/// returns `None` for an empty slice and otherwise one of its entries; which
/// one is not claimed.
#[verifier::external_body]
pub(crate) fn choose_cell(rng: &mut ThreadRng, items: &Vec<(usize, usize)>) -> (picked: Option<
    (usize, usize),
>)
    ensures
        items.len() == 0 ==> picked.is_none(),
        items.len() > 0 ==> picked.is_some() && items@.contains(picked.unwrap()),
{
    items.choose(rng).copied()
}

} // verus!
