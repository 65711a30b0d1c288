use macroquad::rand::ChooseRandom;
use vstd::prelude::*;

verus! {

/// Largest bound handed to the random draws. The generator scales a 32-bit draw
/// into the range in `f64`; up to this bound the scaled value stays below `high`
/// by far more than the rounding error, so the truncated result is in range.
pub const DRAW_LIMIT: usize = 0x1_0000;

/// Relies on macroquad::rand::gen_range for usize: a draw scaled into `[low, high)`
/// from the global generator's state.
#[verifier::external_body]
pub(crate) fn gen_range(low: usize, high: usize) -> (r: usize)
    requires
        low < high,
        high <= DRAW_LIMIT,
    ensures
        low <= r < high,
{
    macroquad::rand::gen_range(low, high)
}

/// Relies on macroquad's ChooseRandom::choose on a slice: `None` when it is empty,
/// else one of its items, drawn from the global generator's state.
#[verifier::external_body]
pub(crate) fn choose_item(v: &Vec<usize>) -> (r: Option<usize>)
    requires
        v@.len() <= DRAW_LIMIT,
    ensures
        r is None <==> v@.len() == 0,
        r is Some ==> v@.contains(r->0),
{
    v.as_slice().choose().copied()
}

} // verus!
