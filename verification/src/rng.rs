use vstd::prelude::*;

verus! {

/// Relies on rand::Rng::gen_range over `0..n`: the result is drawn from the
/// half-open range, so it is always strictly below `n`. The call panics only
/// on an empty range, which the precondition rules out.
#[verifier::external_body]
pub(crate) fn rand_below(n: usize) -> (r: usize)
    requires
        n >= 1,
    ensures
        r < n,
{
    rand::Rng::gen_range(&mut rand::thread_rng(), 0..n)
}

} // verus!
