use vstd::prelude::*;

verus! {

/// The xorshift generator of `rand`, carried through the library as an opaque value.
#[verifier::external_type_specification]
#[verifier::external_body]
pub struct ExXorShiftRng(rand::XorShiftRng);

/// Relies on `rand::Rng::gen_range(0, n)`, which panics unless `0 < n` and otherwise
/// returns a value of the half-open range `[0, n)`.
#[verifier::external_body]
pub(crate) fn draw_below(rng: &mut rand::XorShiftRng, n: u32) -> (r: u32)
    requires
        0 < n,
    ensures
        r < n,
{
    rand::Rng::gen_range(rng, 0, n)
}

} // verus!
