use rand::rngs::StdRng;
use rand::Rng;
use vstd::prelude::*;

verus! {

/// The seeded generator that every random decision draws from.
#[verifier::external_type_specification]
#[verifier::external_body]
pub struct ExStdRng(StdRng);

/// Relies on rand's `Rng::gen_range` over `low..high`: the value drawn lies
/// in the half-open range. It panics on an empty range, which `requires`
/// leaves out.
#[verifier::external_body]
pub(crate) fn gen_range(rng: &mut StdRng, low: i32, high: i32) -> (r: i32)
    requires
        low < high,
    ensures
        low <= r < high,
{
    rng.gen_range(low..high)
}

} // verus!
