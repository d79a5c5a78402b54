//! Random choices, drawn with [`rand`] and [`rand_distr`].
//!
//! Nothing here is verified. The contracts say what holds of every draw,
//! whichever numbers the generator gives: that the position drawn is one of
//! those that were offered. How likely each position is they do not say.

use rand::rngs::StdRng;
use rand_distr::weighted::WeightedAliasIndex;
use vstd::prelude::*;

verus! {

/// The random number generator that the draws are made with.
#[verifier::external_type_specification]
#[verifier::external_body]
pub struct ExStdRng(StdRng);

/// A `WeightedAliasIndex` over `u64` weights.
#[verifier::external_body]
#[derive(Debug)]
pub struct AliasTable {
    index: WeightedAliasIndex<u64>,
}

/// The weights that an alias table was made from, in their order.
pub uninterp spec fn alias_weights(table: AliasTable) -> Seq<u64>;

impl Clone for AliasTable {
    /// `WeightedAliasIndex::clone`: a table of the same weights.
    #[verifier::external_body]
    fn clone(&self) -> (copy: Self)
        ensures
            alias_weights(copy) == alias_weights(*self),
    {
        AliasTable { index: self.index.clone() }
    }
}

/// The weights that `WeightedAliasIndex::new` takes: at least one and at most
/// `u32::MAX` of them, none above `u64::MAX` divided by their number, and one
/// that is not zero.
pub open spec fn indexable(weights: Seq<u64>) -> bool {
    &&& 0 < weights.len() <= u32::MAX
    &&& forall|i: int|
        0 <= i < weights.len() ==> #[trigger] weights[i] as nat <= u64::MAX as nat / weights.len()
    &&& exists|i: int| 0 <= i < weights.len() && #[trigger] weights[i] > 0
}

/// `WeightedAliasIndex::new`, which returns an error on no other weights than
/// those that `indexable` leaves out. The table is one of the weights given.
#[verifier::external_body]
pub(crate) fn alias_table(weights: Vec<u64>) -> (table: AliasTable)
    requires
        indexable(weights@),
    ensures
        alias_weights(table) == weights@,
{
    AliasTable {
        index: WeightedAliasIndex::new(weights).expect("failed to create weighted alias index"),
    }
}

/// `Distribution::sample` of a `WeightedAliasIndex`: a position in the
/// weights that the table was made from. Which one depends on the generator.
#[verifier::external_body]
pub(crate) fn sample_index(table: &AliasTable, rng: &mut StdRng) -> (position: usize)
    ensures
        position < alias_weights(*table).len(),
{
    rand_distr::Distribution::sample(&table.index, rng)
}

/// `IteratorRandom::choose` on the positions from zero up to `len`: one of
/// them, and none only where there is none. Which one depends on the
/// generator.
#[verifier::external_body]
pub(crate) fn choose_index(len: usize, rng: &mut StdRng) -> (position: Option<usize>)
    ensures
        match position {
            Some(i) => i < len,
            None => len == 0,
        },
{
    rand::seq::IteratorRandom::choose(0..len, rng)
}

} // verus!
