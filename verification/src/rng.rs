//! The random number generator that picks the first centroids.

use rand::Rng;
use rand_xorshift::XorShiftRng;
use vstd::prelude::*;

verus! {

/// The xorshift generator of `rand_xorshift`. Nothing is known of its state.
#[verifier::external_type_specification]
#[verifier::external_body]
pub struct ExXorShiftRng(rand_xorshift::XorShiftRng);

/// Draws an index below `n`.
///
/// Calls `Rng::gen_range` of `rand` on the range `0..n`. For a range that
/// is not empty it returns a value of that range; which one is not known.
/// It panics on an empty range, which `n > 0` rules out.
#[verifier::external_body]
pub(crate) fn random_index(rng: &mut XorShiftRng, n: usize) -> (index: usize)
    requires
        n > 0,
    ensures
        index < n,
{
    rng.gen_range(0..n)
}

/// The largest length for which `rand` samples all indices of a range.
pub const MAX_FULL_SAMPLE: usize = 4294967295;

/// `amount` different indices below `length` can be sampled.
///
/// There are no more indices asked for than there are. A range longer than
/// `MAX_FULL_SAMPLE` is not sampled in full. And the range is short enough
/// for the sets and vectors of indices that the sampling allocates: none of
/// them takes more than 32 bytes for an index of the range.
pub open spec fn can_sample(length: nat, amount: nat) -> bool {
    &&& amount <= length
    &&& amount < length || length <= MAX_FULL_SAMPLE
    &&& length * 32 <= isize::MAX
}

/// Draws `amount` different indices below `length`.
///
/// Calls `rand::seq::index::sample`, which samples exactly `amount`
/// distinct indices from `0..length` and returns them in random order, and
/// turns what it returns into a vector with `IndexVec::into_vec`. Which
/// indices are drawn is not known.
///
/// The call panics when `amount` exceeds `length`. For a `length` above
/// `MAX_FULL_SAMPLE` it samples by rejection, which asserts that `amount`
/// is below `length`. It allocates a vector of `length` or of `amount`
/// indices, or a hash set and a vector of `amount` indices, and an
/// allocation panics when it asks for more than `isize::MAX` bytes.
/// `can_sample` rules all of these out.
#[verifier::external_body]
pub(crate) fn random_indices(rng: &mut XorShiftRng, length: usize, amount: usize) -> (indices: Vec<usize>)
    requires
        can_sample(length as nat, amount as nat),
    ensures
        indices.len() == amount,
        forall|k: int| 0 <= k < indices.len() ==> (#[trigger] indices[k]) < length,
        forall|a: int, b: int| 0 <= a < b < indices.len() ==> #[trigger] indices[a] != #[trigger] indices[b],
{
    rand::seq::index::sample(rng, length, amount).into_vec()
}

} // verus!
