//! The colour gradient, which the `colorgrad` crate interpolates.
//!
//! Nothing here is proved: the contract restates what `colorgrad` does.

use vstd::prelude::*;
use crate::color::Color;

verus! {

/// The 8-bit colours at `n` evenly spaced positions, first stop to last
/// stop, of the gradient that runs through `stops` at equal distances and
/// interpolates linearly in RGB.
pub uninterp spec fn ramp_colors(stops: Seq<Color>, n: nat) -> Seq<Color>;

/// `colorgrad::CustomGradient::new().colors(..).build()` on the stops
/// converted by `colorgrad::Color::from_rgba8`, then
/// `colorgrad::Gradient::colors(n)`, each colour converted back by
/// `colorgrad::Color::to_rgba8`.
///
/// With two or more colours, no HTML colours and no domain, `build` takes the
/// colours as they are, has no error left to return, and makes a linear RGB
/// gradient over the unit interval. `colors` samples it at `n` evenly spaced
/// positions, so the result is a function of the stops and of `n` alone. The
/// first position is the start of the interval and, where there are two or
/// more, the last is its end; there the gradient returns its first and last
/// colour unchanged, and an 8-bit channel survives the way to a float and
/// back.
#[verifier::external_body]
pub(crate) fn gradient_colors(stops: &Vec<Color>, n: usize) -> (r: Vec<Color>)
    requires
        stops@.len() >= 2,
    ensures
        r@.len() == n,
        r@ == ramp_colors(stops@, n as nat),
        n >= 1 ==> r@[0] == stops@[0],
        n >= 2 ==> r@[n - 1] == stops@[stops@.len() - 1],
{
    let colors: Vec<colorgrad::Color> = stops.iter().map(
        |c| colorgrad::Color::from_rgba8(c.r, c.g, c.b, c.a),
    ).collect();
    let gradient = colorgrad::CustomGradient::new().colors(&colors).build().unwrap();
    gradient.colors(n).iter().map(|c| c.to_rgba8()).map(
        |[r, g, b, a]| Color { r, g, b, a },
    ).collect()
}

} // verus!
