//! Random draws. Nothing is promised of a draw but the range it lies in, so
//! whatever is built on one is proved for every value it can take.

use vstd::prelude::*;
use rand::Rng;

verus! {

/// `Rng::gen` for a `u8` on rand's thread-local generator: any byte.
#[verifier::external_body]
pub(crate) fn random_byte() -> (r: u8) {
    rand::thread_rng().gen::<u8>()
}

/// `Rng::gen_range` on rand's thread-local generator, over `lo..=hi`: a
/// number in that range. The method panics on an empty range, so the caller
/// rules that out.
#[verifier::external_body]
pub(crate) fn random_u16_between(lo: u16, hi: u16) -> (r: u16)
    requires
        lo <= hi,
    ensures
        lo <= r <= hi,
{
    rand::thread_rng().gen_range(lo..=hi)
}

} // verus!
