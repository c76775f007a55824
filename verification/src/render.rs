//! The frame renderer: every pixel's plane point is iterated and coloured,
//! row by row.
//!
//! The plane, the escape test, the map and the continuous escape index come
//! from the caller; a row is an independent piece of work, so rows may be
//! rendered anywhere and in any order and gathered by a `FrameAssembler`.

use vstd::prelude::*;
use crate::color::{color_for, color_of, Color, ColorMode, Palette};
use crate::escape::{escapes_as, evaluate, lemma_verdict_unique, single_valued, EscapeResult};
use crate::frame::{FrameAssembler, FrameBuffer};

verus! {

/// `position` is a place that `locate` gives for the verdict `result`,
/// reached at the point `last`, where the colour goes by the place: in
/// gradient mode, for a point that escaped. Everywhere else any place will
/// do, as the colour does not depend on it.
pub open spec fn located<Z, L: Fn(u32, &Z) -> u32>(
    locate: L,
    mode: ColorMode,
    result: EscapeResult,
    last: Z,
    position: u32,
) -> bool {
    match (mode, result) {
        (ColorMode::Gradient, EscapeResult::Escaped { iteration }) => call_ensures(
            locate,
            (iteration, &last),
            position,
        ),
        _ => true,
    }
}

/// `color` is a colour of the pixel `(x, y)`: that of the verdict on a plane
/// point that `plane` gives for the pixel, in gradient mode looked up at the
/// place that `locate` gives for the count and the point at escape.
pub open spec fn shows<Z, P: Fn(usize, usize) -> Z, T: Fn(&Z) -> bool, U: Fn(Z) -> Z, L: Fn(u32, &Z) -> u32>(
    plane: P,
    exceeds: T,
    advance: U,
    locate: L,
    mode: ColorMode,
    cap: u32,
    ramp: Seq<Color>,
    x: usize,
    y: usize,
    color: Color,
) -> bool {
    exists|start: Z, result: EscapeResult, last: Z, position: u32|
        {
            &&& call_ensures(plane, (x, y), start)
            &&& #[trigger] escapes_as(exceeds, advance, start, cap, result, last)
            &&& #[trigger] located(locate, mode, result, last, position)
            &&& color == color_for(result, position, mode, cap, ramp)
        }
}

/// `colors` is row `y` of a frame `width` pixels wide.
pub open spec fn shows_row<
    Z,
    P: Fn(usize, usize) -> Z,
    T: Fn(&Z) -> bool,
    U: Fn(Z) -> Z,
    L: Fn(u32, &Z) -> u32,
>(
    plane: P,
    exceeds: T,
    advance: U,
    locate: L,
    mode: ColorMode,
    cap: u32,
    ramp: Seq<Color>,
    width: usize,
    y: usize,
    colors: Seq<Color>,
) -> bool {
    &&& colors.len() == width
    &&& forall|x: usize|
        x < width ==> shows(plane, exceeds, advance, locate, mode, cap, ramp, x, y, #[trigger] colors[x as int])
}

/// `rows` is a frame of `height` rows of `width` pixels.
pub open spec fn depicts<
    Z,
    P: Fn(usize, usize) -> Z,
    T: Fn(&Z) -> bool,
    U: Fn(Z) -> Z,
    L: Fn(u32, &Z) -> u32,
>(
    plane: P,
    exceeds: T,
    advance: U,
    locate: L,
    mode: ColorMode,
    cap: u32,
    ramp: Seq<Color>,
    width: usize,
    height: usize,
    rows: Seq<Seq<Color>>,
) -> bool {
    &&& rows.len() == height
    &&& forall|y: usize|
        y < height ==> shows_row(
            plane,
            exceeds,
            advance,
            locate,
            mode,
            cap,
            ramp,
            width,
            y,
            #[trigger] rows[y as int],
        )
}

/// The plane gives one point per pixel, and the index one place per count
/// and point.
pub open spec fn single_point<Z, P: Fn(usize, usize) -> Z, L: Fn(u32, &Z) -> u32>(plane: P, locate: L) -> bool {
    &&& forall|x: usize, y: usize, a: Z, b: Z|
        call_ensures(plane, (x, y), a) && call_ensures(plane, (x, y), b) ==> a == b
    &&& forall|n: u32, z: Z, a: u32, b: u32|
        call_ensures(locate, (n, &z), a) && call_ensures(locate, (n, &z), b) ==> a == b
}

/// Renders row `y`. For each column the plane point of the pixel is iterated
/// under the palette's cap and the verdict is coloured under `mode`; in
/// gradient mode a point that escaped is looked up at the place that `locate`
/// gives for its count and the point at escape. Returns the row with its
/// index, ready to be placed.
pub fn render_row<Z, P: Fn(usize, usize) -> Z, T: Fn(&Z) -> bool, U: Fn(Z) -> Z, L: Fn(u32, &Z) -> u32>(
    width: usize,
    y: usize,
    mode: ColorMode,
    palette: &Palette,
    plane: &P,
    exceeds: &T,
    advance: &U,
    locate: &L,
) -> (r: (usize, Vec<Color>))
    requires
        forall|x: usize, y: usize| call_requires(*plane, (x, y)),
        forall|z: Z| call_requires(*exceeds, (&z,)),
        forall|z: Z| call_requires(*advance, (z,)),
        forall|n: u32, z: Z| call_requires(*locate, (n, &z)),
    ensures
        r.0 == y,
        shows_row(*plane, *exceeds, *advance, *locate, mode, palette.cap(), palette@, width, y, r.1@),
{
    let cap = palette.limit();
    let mut colors: Vec<Color> = Vec::new();
    let mut x: usize = 0;
    while x < width
        invariant
            x <= width,
            cap == palette.cap(),
            colors@.len() == x,
            forall|x: usize, y: usize| call_requires(*plane, (x, y)),
            forall|z: Z| call_requires(*exceeds, (&z,)),
            forall|z: Z| call_requires(*advance, (z,)),
            forall|n: u32, z: Z| call_requires(*locate, (n, &z)),
            forall|k: usize|
                k < x ==> shows(
                    *plane,
                    *exceeds,
                    *advance,
                    *locate,
                    mode,
                    cap,
                    palette@,
                    k,
                    y,
                    #[trigger] colors@[k as int],
                ),
        decreases width - x,
    {
        let start = plane(x, y);
        let ghost origin = start;
        let (result, last) = evaluate(start, cap, exceeds, advance);
        let position: u32 = match (mode, result) {
            (ColorMode::Gradient, EscapeResult::Escaped { iteration }) => locate(iteration, &last),
            _ => 0,
        };
        let color = color_of(result, position, mode, palette);
        proof {
            assert(escapes_as(*exceeds, *advance, origin, cap, result, last));
            assert(located(*locate, mode, result, last, position));
            assert(shows(*plane, *exceeds, *advance, *locate, mode, cap, palette@, x, y, color));
        }
        colors.push(color);
        x = x + 1;
    }
    (y, colors)
}

/// Renders the whole frame, one row after the other.
pub fn render_frame<Z, P: Fn(usize, usize) -> Z, T: Fn(&Z) -> bool, U: Fn(Z) -> Z, L: Fn(u32, &Z) -> u32>(
    width: usize,
    height: usize,
    mode: ColorMode,
    palette: &Palette,
    plane: &P,
    exceeds: &T,
    advance: &U,
    locate: &L,
) -> (r: FrameBuffer)
    requires
        forall|x: usize, y: usize| call_requires(*plane, (x, y)),
        forall|z: Z| call_requires(*exceeds, (&z,)),
        forall|z: Z| call_requires(*advance, (z,)),
        forall|n: u32, z: Z| call_requires(*locate, (n, &z)),
    ensures
        r.columns() == width,
        depicts(*plane, *exceeds, *advance, *locate, mode, palette.cap(), palette@, width, height, r@),
{
    let mut assembler = FrameAssembler::new(width, height);
    let mut y: usize = 0;
    while y < height
        invariant
            y <= height,
            assembler.wf(),
            assembler.columns() == width,
            assembler@.len() == height,
            forall|x: usize, y: usize| call_requires(*plane, (x, y)),
            forall|z: Z| call_requires(*exceeds, (&z,)),
            forall|z: Z| call_requires(*advance, (z,)),
            forall|n: u32, z: Z| call_requires(*locate, (n, &z)),
            forall|k: int| y <= k < height ==> (#[trigger] assembler@[k]) is None,
            forall|k: usize|
                k < y ==> {
                    &&& (#[trigger] assembler@[k as int]) is Some
                    &&& shows_row(
                        *plane,
                        *exceeds,
                        *advance,
                        *locate,
                        mode,
                        palette.cap(),
                        palette@,
                        width,
                        k,
                        assembler@[k as int]->0,
                    )
                },
        decreases height - y,
    {
        let (index, colors) = render_row(width, y, mode, palette, plane, exceeds, advance, locate);
        let placing = assembler.place_row(index, colors);
        assert(placing is Ok);
        y = y + 1;
    }
    match assembler.finish() {
        Some(frame) => {
            proof {
                assert forall|k: usize| k < height implies shows_row(
                    *plane,
                    *exceeds,
                    *advance,
                    *locate,
                    mode,
                    palette.cap(),
                    palette@,
                    width,
                    k,
                    #[trigger] frame@[k as int],
                ) by {
                    assert(assembler@[k as int] is Some);
                }
            }
            frame
        },
        None => unreached(),
    }
}

/// With a single-valued plane, test, map and index every pixel has one
/// colour.
pub proof fn lemma_pixel_unique<
    Z,
    P: Fn(usize, usize) -> Z,
    T: Fn(&Z) -> bool,
    U: Fn(Z) -> Z,
    L: Fn(u32, &Z) -> u32,
>(
    plane: P,
    exceeds: T,
    advance: U,
    locate: L,
    mode: ColorMode,
    cap: u32,
    ramp: Seq<Color>,
    x: usize,
    y: usize,
    first: Color,
    second: Color,
)
    requires
        single_point(plane, locate),
        single_valued(exceeds, advance),
        shows(plane, exceeds, advance, locate, mode, cap, ramp, x, y, first),
        shows(plane, exceeds, advance, locate, mode, cap, ramp, x, y, second),
    ensures
        first == second,
{
    let (s1, r1, l1, p1) = choose|start: Z, result: EscapeResult, last: Z, position: u32|
        {
            &&& call_ensures(plane, (x, y), start)
            &&& #[trigger] escapes_as(exceeds, advance, start, cap, result, last)
            &&& #[trigger] located(locate, mode, result, last, position)
            &&& first == color_for(result, position, mode, cap, ramp)
        };
    let (s2, r2, l2, p2) = choose|start: Z, result: EscapeResult, last: Z, position: u32|
        {
            &&& call_ensures(plane, (x, y), start)
            &&& #[trigger] escapes_as(exceeds, advance, start, cap, result, last)
            &&& #[trigger] located(locate, mode, result, last, position)
            &&& second == color_for(result, position, mode, cap, ramp)
        };
    assert(s1 == s2);
    lemma_verdict_unique(exceeds, advance, s1, cap, (r1, l1), (r2, l2));
}

/// Rendering is deterministic: where the plane, the test, the map and the
/// index are single-valued, any two frames rendered of one view and size are
/// equal, however their rows were computed and in whatever order they
/// arrived.
pub proof fn lemma_render_deterministic<
    Z,
    P: Fn(usize, usize) -> Z,
    T: Fn(&Z) -> bool,
    U: Fn(Z) -> Z,
    L: Fn(u32, &Z) -> u32,
>(
    plane: P,
    exceeds: T,
    advance: U,
    locate: L,
    mode: ColorMode,
    cap: u32,
    ramp: Seq<Color>,
    width: usize,
    height: usize,
    first: Seq<Seq<Color>>,
    second: Seq<Seq<Color>>,
)
    requires
        single_point(plane, locate),
        single_valued(exceeds, advance),
        depicts(plane, exceeds, advance, locate, mode, cap, ramp, width, height, first),
        depicts(plane, exceeds, advance, locate, mode, cap, ramp, width, height, second),
    ensures
        first == second,
{
    assert forall|y: int| 0 <= y < height implies first[y] == second[y] by {
        let row = y as usize;
        assert(shows_row(plane, exceeds, advance, locate, mode, cap, ramp, width, row, first[row as int]));
        assert(shows_row(plane, exceeds, advance, locate, mode, cap, ramp, width, row, second[row as int]));
        assert forall|x: int| 0 <= x < width implies first[y][x] == second[y][x] by {
            let column = x as usize;
            assert(shows(plane, exceeds, advance, locate, mode, cap, ramp, column, row, first[y][column as int]));
            assert(shows(plane, exceeds, advance, locate, mode, cap, ramp, column, row, second[y][column as int]));
            lemma_pixel_unique(
                plane,
                exceeds,
                advance,
                locate,
                mode,
                cap,
                ramp,
                column,
                row,
                first[y][x],
                second[y][x],
            );
        }
        assert(first[y] =~= second[y]);
    }
    assert(first =~= second);
}

} // verus!
