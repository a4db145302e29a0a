//! Random values in a range.
use vstd::prelude::*;
use rand::Rng;

verus! {

/// A random `u64` from the thread's generator (`rand::thread_rng` and
/// `Rng::gen`). Chance decides it; nothing is stated of it.
#[verifier::external_body]
fn random_u64() -> u64 {
    rand::thread_rng().gen::<u64>()
}

/// The value in `[minval, maxval)` that the raw random number `raw` maps to.
pub fn rand_value_from(minval: u64, maxval: u64, raw: u64) -> (r: u64)
    requires
        minval < maxval,
    ensures
        r == (raw as int) % ((maxval - minval) as int) + minval,
        minval <= r < maxval,
{
    let sval = maxval - minval;
    let mut nval = raw % sval;
    nval = nval + minval;
    nval
}

/// A random value in `[minval, maxval)`.
pub fn get_rand_value(minval: u64, maxval: u64) -> (r: u64)
    requires
        minval < maxval,
    ensures
        minval <= r < maxval,
{
    rand_value_from(minval, maxval, random_u64())
}

} // verus!
