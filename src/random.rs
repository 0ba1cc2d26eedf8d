use vstd::prelude::*;
use rand::rngs::StdRng;
use rand::seq::SliceRandom;
use crate::grid::Coord;

verus! {

#[verifier::external_type_specification]
#[verifier::external_body]
pub struct ExStdRng(StdRng);

/// Relies on rand's `SliceRandom::choose` for slices: `None` when the slice is empty, otherwise
/// one of its elements.
#[verifier::external_body]
pub(crate) fn choose_one(rng: &mut StdRng, items: &Vec<Coord>) -> (r: Option<Coord>)
    ensures
        r.is_none() <==> items@.len() == 0,
        r matches Some(c) ==> items@.contains(c),
{
    items.choose(rng).copied()
}

} // verus!
