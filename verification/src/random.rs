//! The random choices of the library. They come from the `rand` crate, so
//! nothing here is proved: each contract says only what holds of every
//! outcome.

use crate::concept::Attribute;
use rand::seq::SliceRandom;
use rand::Rng;
use vstd::prelude::*;

verus! {

/// A number from the generator of the thread, `rand::thread_rng`, drawn with
/// `Rng::gen`. Nothing is known of it: two calls may differ.
#[verifier::external_body]
pub(crate) fn random_u64() -> u64 {
    rand::thread_rng().gen()
}

/// One of `names`, picked by `SliceRandom::choose` with the generator of the
/// thread. As the source of `choose` shows, it gives `None` for an empty slice
/// and an item of the slice otherwise; which item is not known.
#[verifier::external_body]
pub(crate) fn pick(names: &[Attribute]) -> (name: Option<Attribute>)
    ensures
        match name {
            Some(name) => names@.contains(name),
            None => names@.len() == 0,
        },
{
    names.choose(&mut rand::thread_rng()).copied()
}

} // verus!
