use vstd::prelude::*;
use rand::Rng;

verus! {

/// Relies on rand's `thread_rng` and `Rng::gen_range` over a half-open range,
/// which returns a value inside the range and panics only on an empty one.
#[verifier::external_body]
fn random_below(n: u64) -> (r: u64)
    requires
        n > 0,
    ensures
        r < n,
{
    rand::thread_rng().gen_range(0..n)
}

/// A random value between `lo` and `hi`, both included.
pub(crate) fn random_range(lo: i32, hi: i32) -> (r: i32)
    requires
        lo <= hi,
    ensures
        lo <= r <= hi,
{
    let span = (hi as i64 - lo as i64 + 1) as u64;
    let k = random_below(span);
    (lo as i64 + k as i64) as i32
}

/// A random index below `len`.
pub(crate) fn random_index(len: usize) -> (r: usize)
    requires
        len > 0,
    ensures
        r < len,
{
    random_below(len as u64) as usize
}

/// Relies on rand's `thread_rng` and `Rng::gen_ratio`, which returns `true` with
/// probability `num / den`: never for `num == 0`, always for `num == den`; it
/// panics for `den == 0` or `num > den`.
#[verifier::external_body]
pub(crate) fn random_ratio(num: u32, den: u32) -> (r: bool)
    requires
        0 < den,
        num <= den,
    ensures
        num == 0 ==> !r,
        num == den ==> r,
{
    rand::thread_rng().gen_ratio(num, den)
}

} // verus!
