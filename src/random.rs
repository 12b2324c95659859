use vstd::prelude::*;

verus! {

/// Relies on rand's `thread_rng().gen_range(0..len)`: a uniformly drawn
/// index in `0..len`.
#[verifier::external_body]
pub(crate) fn random_index(len: usize) -> (r: usize)
    requires
        len > 0,
    ensures
        r < len,
{
    rand::Rng::gen_range(&mut rand::thread_rng(), 0..len)
}

} // verus!
