//! Display colours and the two policies that turn an escape verdict into one.

use vstd::prelude::*;
use crate::escape::EscapeResult;
use crate::ramp::{gradient_colors, ramp_colors};

verus! {

/// An 8-bit RGBA colour.
#[derive(Clone, Copy, Debug, PartialEq, Eq, Structural)]
pub struct Color {
    pub r: u8,
    pub g: u8,
    pub b: u8,
    pub a: u8,
}

/// The two ways of turning an escape verdict into a colour.
#[derive(Clone, Copy, Debug, PartialEq, Eq, Structural)]
pub enum ColorMode {
    Grayscale,
    Gradient,
}

impl ColorMode {
    pub open spec fn flipped(self) -> ColorMode {
        match self {
            ColorMode::Grayscale => ColorMode::Gradient,
            ColorMode::Gradient => ColorMode::Grayscale,
        }
    }

    /// The other mode.
    pub fn toggled(self) -> (r: ColorMode)
        ensures
            r == self.flipped(),
    {
        match self {
            ColorMode::Grayscale => ColorMode::Gradient,
            ColorMode::Gradient => ColorMode::Grayscale,
        }
    }
}

/// The colour of points that never escape: opaque black.
pub open spec fn interior_color() -> Color {
    Color { r: 0, g: 0, b: 0, a: 255 }
}

/// The opaque gray with all three channels at `level`.
pub open spec fn gray(level: int) -> Color {
    Color { r: level as u8, g: level as u8, b: level as u8, a: 255 }
}

/// The 8-bit intensity of `iteration / cap`, rounded down, and full intensity
/// from `cap` on.
pub open spec fn gray_level(iteration: u32, cap: u32) -> int {
    if iteration >= cap {
        255
    } else {
        (255 * iteration) / (cap as int)
    }
}

/// The four stops of the gradient, first to last.
pub open spec fn gradient_stops() -> Seq<Color> {
    seq![
        Color { r: 102, g: 143, b: 204, a: 255 },
        Color { r: 185, g: 83, b: 67, a: 255 },
        Color { r: 255, g: 211, b: 47, a: 255 },
        Color { r: 255, g: 255, b: 255, a: 255 },
    ]
}

/// The place in a ramp of `len` colours that `position` stands for: itself,
/// or the last place where it lies beyond. The last place is the end of the
/// gradient, so this clamps the normalised index to the unit interval.
pub open spec fn ramp_place(position: u32, len: nat) -> int {
    if position >= len - 1 {
        len - 1
    } else {
        position as int
    }
}

/// The colour that the policy `mode` gives to `result`.
///
/// Gray goes by the count's share of `cap`. The gradient goes by `position`,
/// the continuous escape index counted in places of `ramp`, whose last place
/// stands for an index of `cap`.
pub open spec fn color_for(
    result: EscapeResult,
    position: u32,
    mode: ColorMode,
    cap: u32,
    ramp: Seq<Color>,
) -> Color {
    match result {
        EscapeResult::Bounded => interior_color(),
        EscapeResult::Escaped { iteration } => match mode {
            ColorMode::Grayscale => gray(gray_level(iteration, cap)),
            ColorMode::Gradient => ramp[ramp_place(position, ramp.len())],
        },
    }
}

/// The interior colour.
pub fn interior() -> (r: Color)
    ensures
        r == interior_color(),
{
    Color { r: 0, g: 0, b: 0, a: 255 }
}

/// The gradient's stops.
pub fn stops() -> (r: Vec<Color>)
    ensures
        r@ == gradient_stops(),
{
    let mut v: Vec<Color> = Vec::new();
    v.push(Color { r: 102, g: 143, b: 204, a: 255 });
    v.push(Color { r: 185, g: 83, b: 67, a: 255 });
    v.push(Color { r: 255, g: 211, b: 47, a: 255 });
    v.push(Color { r: 255, g: 255, b: 255, a: 255 });
    proof {
        assert(v@ =~= gradient_stops());
    }
    v
}

/// The grayscale policy: intensity `iteration / cap` in all three channels.
pub fn grayscale(iteration: u32, cap: u32) -> (r: Color)
    ensures
        r == gray(gray_level(iteration, cap)),
{
    if iteration >= cap {
        Color { r: 255, g: 255, b: 255, a: 255 }
    } else {
        let scaled: u64 = 255u64 * (iteration as u64);
        let level: u64 = scaled / (cap as u64);
        proof {
            assert(scaled / (cap as u64) < 255) by (nonlinear_arith)
                requires
                    scaled == 255 * iteration,
                    iteration < cap,
            ;
        }
        let l: u8 = level as u8;
        Color { r: l, g: l, b: l, a: 255 }
    }
}

/// What the colour mapper goes by: the iteration cap, and a ramp of colours
/// from the gradient's start to its end.
#[derive(Debug)]
pub struct Palette {
    cap: u32,
    colors: Vec<Color>,
}

impl Palette {
    #[verifier::type_invariant]
    spec fn well_formed(&self) -> bool {
        self.colors@.len() >= 1
    }

    /// The ramp: the colour of each place.
    pub closed spec fn view(&self) -> Seq<Color> {
        self.colors@
    }

    /// The iteration cap.
    pub closed spec fn cap(&self) -> u32 {
        self.cap
    }

    /// The palette of the given cap and colours. There is none of no
    /// colours.
    pub fn from_colors(cap: u32, colors: Vec<Color>) -> (r: Option<Palette>)
        ensures
            r is Some <==> colors@.len() >= 1,
            r matches Some(palette) ==> palette@ == colors@ && palette.cap() == cap,
    {
        if colors.len() == 0 {
            None
        } else {
            Some(Palette { cap, colors })
        }
    }

    /// The palette of the gradient with `steps` places to every iteration
    /// count: place `p` holds the gradient's colour at `p / (cap * steps)`.
    pub fn new(cap: u32, steps: u32) -> (r: Palette)
        requires
            cap * steps < usize::MAX,
        ensures
            r.cap() == cap,
            r@.len() == cap * steps + 1,
            r@ == ramp_colors(gradient_stops(), (cap * steps + 1) as nat),
            r@[0] == gradient_stops()[0],
            cap * steps >= 1 ==> r@[cap * steps] == gradient_stops()[3],
    {
        let stops = stops();
        let places: u64 = (cap as u64) * (steps as u64);
        proof {
            assert(places == cap * steps) by (nonlinear_arith)
                requires
                    places == (cap as u64) * (steps as u64),
                    cap * steps < usize::MAX,
            ;
        }
        let n: usize = (places as usize) + 1;
        let colors = gradient_colors(&stops, n);
        Palette { cap, colors }
    }

    /// The iteration cap.
    pub fn limit(&self) -> (r: u32)
        ensures
            r == self.cap(),
    {
        self.cap
    }

    /// The number of the ramp's last place.
    pub fn last_place(&self) -> (r: usize)
        ensures
            r == self@.len() - 1,
    {
        proof {
            use_type_invariant(self);
        }
        self.colors.len() - 1
    }

    /// The colour at `position`, and the last colour from the last place on.
    pub fn color_at(&self, position: u32) -> (r: Color)
        ensures
            r == self@[ramp_place(position, self@.len())],
            self@.len() >= 1,
    {
        proof {
            use_type_invariant(self);
        }
        let last = self.colors.len() - 1;
        if position as usize >= last {
            self.colors[last]
        } else {
            self.colors[position as usize]
        }
    }
}

/// The colour mapper: the colour of `result` under the policy `mode`, where
/// `position` is the continuous escape index in places of the palette's ramp.
pub fn color_of(result: EscapeResult, position: u32, mode: ColorMode, palette: &Palette) -> (r: Color)
    ensures
        r == color_for(result, position, mode, palette.cap(), palette@),
{
    match result {
        EscapeResult::Bounded => interior(),
        EscapeResult::Escaped { iteration } => match mode {
            ColorMode::Grayscale => grayscale(iteration, palette.limit()),
            ColorMode::Gradient => palette.color_at(position),
        },
    }
}

/// A bounded point has the interior colour whatever the mode, the index,
/// the cap and the ramp are.
pub proof fn lemma_interior_whatever_mode(
    first_position: u32,
    first_mode: ColorMode,
    first_cap: u32,
    first_ramp: Seq<Color>,
    second_position: u32,
    second_mode: ColorMode,
    second_cap: u32,
    second_ramp: Seq<Color>,
)
    ensures
        color_for(EscapeResult::Bounded, first_position, first_mode, first_cap, first_ramp) == interior_color(),
        color_for(EscapeResult::Bounded, first_position, first_mode, first_cap, first_ramp) == color_for(
            EscapeResult::Bounded,
            second_position,
            second_mode,
            second_cap,
            second_ramp,
        ),
{
}

/// The gray level is the intensity `iteration / cap` in 255ths, rounded down:
/// it lies between 0 and 255 and is within one 255th below the intensity.
pub proof fn lemma_gray_level_linear(iteration: u32, cap: u32)
    requires
        iteration <= cap,
        cap > 0,
    ensures
        0 <= gray_level(iteration, cap) <= 255,
        gray_level(iteration, cap) * cap <= 255 * iteration < (gray_level(iteration, cap) + 1) * cap,
{
    if iteration < cap {
        let level = (255 * iteration) / (cap as int);
        assert(0 <= level <= 255 && level * cap <= 255 * iteration < (level + 1) * cap) by (nonlinear_arith)
            requires
                level == (255 * iteration) / (cap as int),
                0 <= iteration < cap,
        ;
    } else {
        assert(255 * cap < 256 * cap) by (nonlinear_arith)
            requires
                cap > 0,
        ;
    }
}

/// The gray level never falls as the iteration count grows.
pub proof fn lemma_gray_level_monotonic(earlier: u32, later: u32, cap: u32)
    requires
        earlier <= later,
    ensures
        gray_level(earlier, cap) <= gray_level(later, cap),
{
    if later < cap {
        assert((255 * earlier) / (cap as int) <= (255 * later) / (cap as int)) by (nonlinear_arith)
            requires
                0 <= earlier <= later,
                cap > 0,
        ;
    } else if earlier < cap {
        assert((255 * earlier) / (cap as int) <= 255) by (nonlinear_arith)
            requires
                0 <= earlier < cap,
        ;
    }
}

} // verus!
