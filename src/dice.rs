use vstd::prelude::*;
use rand::Rng;
use rand::seq::IndexedRandom;
use crate::skills::Preset;

verus! {

/// Relies on rand's `Rng::random_range` on the inclusive range `lo..=hi`,
/// which is not empty: the result lies in it.
#[verifier::external_body]
pub(crate) fn random_between(lo: i64, hi: i64) -> (r: i64)
    requires
        lo <= hi,
    ensures
        lo <= r <= hi,
{
    rand::rng().random_range(lo..=hi)
}

/// Relies on rand's `IndexedRandom::choose` on a non-empty slice: it returns
/// one of its elements.
#[verifier::external_body]
pub(crate) fn choose_preset(options: &Vec<Preset>) -> (r: Preset)
    requires
        options@.len() > 0,
    ensures
        options@.contains(r),
{
    *options.as_slice().choose(&mut rand::rng()).unwrap()
}

/// A uniform roll in `lo..=hi`.
pub fn roll(lo: u8, hi: u8) -> (r: u8)
    requires
        lo <= hi,
    ensures
        lo <= r <= hi,
{
    random_between(lo as i64, hi as i64) as u8
}

} // verus!
