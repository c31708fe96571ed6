//! Random draws for the selection policy. A single trusted wrapper supplies
//! uniform 64-bit values; everything derived from them is verified, stating
//! only what holds of every possible draw.

use vstd::prelude::*;

verus! {

/// Relies on rand::random: a value drawn from the thread-local generator,
/// distributed uniformly over `u64`. Nothing is promised of the value;
/// callers state what holds of every outcome.
#[verifier::external_body]
fn random_u64() -> u64 {
    rand::random::<u64>()
}

/// A random index below `len`, uniform up to the modulo bias of a 64-bit
/// draw.
pub fn pick_index(len: usize) -> (r: usize)
    requires
        1 <= len,
    ensures
        r < len,
{
    (random_u64() % (len as u64)) as usize
}

/// A random index below `len` biased toward zero: the leading-zero count of
/// a uniform draw has a geometric law, which is the integer part of an
/// exponential one; scaling by ln 2 (as 693/1000) and dividing by the
/// exploration parameter (in thousandths) flattens or sharpens it, and the
/// remainder modulo `len` folds it onto the list.
pub fn exponential_index(len: usize, exploration_permille: u32) -> (r: usize)
    requires
        1 <= len,
        1 <= exploration_permille,
    ensures
        r < len,
{
    let draw = random_u64();
    let geometric: u32 = draw.leading_zeros();
    let scaled: u64 = (geometric as u64) * 693 / (exploration_permille as u64);
    (scaled % (len as u64)) as usize
}

} // verus!
