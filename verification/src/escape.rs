//! Escape-time iteration of a map on an arbitrary state space.
//!
//! The evaluator owns the control flow: how often the map is applied, when the
//! escape test is made, and what is reported. The state space, the test and
//! the map are supplied by the caller.

use vstd::prelude::*;

verus! {

/// What the escape-time iteration found for one starting point.
#[derive(Clone, Copy, Debug, PartialEq, Eq, Structural)]
pub enum EscapeResult {
    /// The escape test held at the point reached after `iteration` updates.
    Escaped { iteration: u32 },
    /// The iteration cap was reached and no test held.
    Bounded,
}

/// `orbit` starts at `start` and each further point is an output of `advance`
/// on the point before it.
pub open spec fn is_orbit<Z, U: Fn(Z) -> Z>(advance: U, start: Z, orbit: Seq<Z>) -> bool {
    &&& orbit.len() >= 1
    &&& orbit[0] == start
    &&& forall|i: int| 1 <= i < orbit.len() ==> call_ensures(advance, (orbit[i - 1],), #[trigger] orbit[i])
}

/// The escape test came out false on each of the first `n` points of `orbit`.
pub open spec fn stays_inside<Z, T: Fn(&Z) -> bool>(exceeds: T, orbit: Seq<Z>, n: int) -> bool {
    forall|i: int| 0 <= i < n ==> call_ensures(exceeds, (&#[trigger] orbit[i],), false)
}

/// `result` and `last` are what iterating from `start` under the cap `cap`
/// gives along `orbit`: the test is made before each update, the first point
/// on which it holds ends the iteration, and after `cap` updates without
/// escape the point is reported as bounded.
pub open spec fn follows<Z, T: Fn(&Z) -> bool, U: Fn(Z) -> Z>(
    exceeds: T,
    advance: U,
    start: Z,
    cap: u32,
    orbit: Seq<Z>,
    result: EscapeResult,
    last: Z,
) -> bool {
    &&& is_orbit(advance, start, orbit)
    &&& last == orbit.last()
    &&& match result {
        EscapeResult::Escaped { iteration } => {
            &&& iteration < cap
            &&& orbit.len() == iteration + 1
            &&& stays_inside(exceeds, orbit, iteration as int)
            &&& call_ensures(exceeds, (&orbit[iteration as int],), true)
        },
        EscapeResult::Bounded => {
            &&& orbit.len() == cap + 1
            &&& stays_inside(exceeds, orbit, cap as int)
        },
    }
}

/// Some orbit from `start` leads to `result` and `last`.
pub open spec fn escapes_as<Z, T: Fn(&Z) -> bool, U: Fn(Z) -> Z>(
    exceeds: T,
    advance: U,
    start: Z,
    cap: u32,
    result: EscapeResult,
    last: Z,
) -> bool {
    exists|orbit: Seq<Z>| follows(exceeds, advance, start, cap, orbit, result, last)
}

/// Iterates `advance` from `start`, testing `exceeds` before every update, for
/// at most `cap` updates. Returns the verdict together with the point at which
/// the iteration stopped.
pub fn evaluate<Z, T: Fn(&Z) -> bool, U: Fn(Z) -> Z>(
    start: Z,
    cap: u32,
    exceeds: &T,
    advance: &U,
) -> (r: (EscapeResult, Z))
    requires
        forall|z: Z| call_requires(*exceeds, (&z,)),
        forall|z: Z| call_requires(*advance, (z,)),
    ensures
        escapes_as(*exceeds, *advance, start, cap, r.0, r.1),
        cap > 0 && (forall|b: bool| call_ensures(*exceeds, (&start,), b) ==> b) ==> r.0
            == (EscapeResult::Escaped { iteration: 0 }),
        (forall|z: Z, b: bool| call_ensures(*exceeds, (&z,), b) ==> !b) ==> r.0 == EscapeResult::Bounded,
{
    let mut z = start;
    let mut i: u32 = 0;
    let ghost mut orbit: Seq<Z> = seq![start];
    while i < cap
        invariant
            i <= cap,
            forall|z: Z| call_requires(*exceeds, (&z,)),
            forall|z: Z| call_requires(*advance, (z,)),
            is_orbit(*advance, start, orbit),
            orbit.len() == i + 1,
            orbit.last() == z,
            stays_inside(*exceeds, orbit, i as int),
            i > 0 ==> call_ensures(*exceeds, (&start,), false),
        decreases cap - i,
    {
        let out = exceeds(&z);
        if out {
            proof {
                assert(follows(*exceeds, *advance, start, cap, orbit, EscapeResult::Escaped { iteration: i }, z));
            }
            return (EscapeResult::Escaped { iteration: i }, z);
        }
        let ghost before = orbit;
        z = advance(z);
        proof {
            orbit = before.push(z);
            assert(forall|k: int| 0 <= k < before.len() ==> orbit[k] == before[k]);
        }
        i = i + 1;
    }
    proof {
        assert(follows(*exceeds, *advance, start, cap, orbit, EscapeResult::Bounded, z));
    }
    (EscapeResult::Bounded, z)
}

/// The escape test and the map each have one output per input.
pub open spec fn single_valued<Z, T: Fn(&Z) -> bool, U: Fn(Z) -> Z>(exceeds: T, advance: U) -> bool {
    &&& forall|z: Z, a: bool, b: bool|
        call_ensures(exceeds, (&z,), a) && call_ensures(exceeds, (&z,), b) ==> a == b
    &&& forall|z: Z, a: Z, b: Z| call_ensures(advance, (z,), a) && call_ensures(advance, (z,), b) ==> a == b
}

/// Two orbits of a single-valued map from one starting point agree as far as
/// both go.
pub proof fn lemma_orbits_agree<Z, U: Fn(Z) -> Z>(advance: U, start: Z, first: Seq<Z>, second: Seq<Z>, i: int)
    requires
        is_orbit(advance, start, first),
        is_orbit(advance, start, second),
        forall|z: Z, a: Z, b: Z| call_ensures(advance, (z,), a) && call_ensures(advance, (z,), b) ==> a == b,
        0 <= i < first.len(),
        i < second.len(),
    ensures
        first[i] == second[i],
    decreases i,
{
    if i > 0 {
        lemma_orbits_agree(advance, start, first, second, i - 1);
        assert(call_ensures(advance, (first[i - 1],), first[i]));
        assert(call_ensures(advance, (second[i - 1],), second[i]));
    }
}

/// With a single-valued test and map the iteration has one outcome: whatever
/// `evaluate` returns for a starting point and a cap, it returns every time.
pub proof fn lemma_verdict_unique<Z, T: Fn(&Z) -> bool, U: Fn(Z) -> Z>(
    exceeds: T,
    advance: U,
    start: Z,
    cap: u32,
    first: (EscapeResult, Z),
    second: (EscapeResult, Z),
)
    requires
        single_valued(exceeds, advance),
        escapes_as(exceeds, advance, start, cap, first.0, first.1),
        escapes_as(exceeds, advance, start, cap, second.0, second.1),
    ensures
        first == second,
{
    let p = choose|orbit: Seq<Z>| follows(exceeds, advance, start, cap, orbit, first.0, first.1);
    let q = choose|orbit: Seq<Z>| follows(exceeds, advance, start, cap, orbit, second.0, second.1);
    let m = if p.len() <= q.len() {
        p.len() - 1
    } else {
        q.len() - 1
    };
    lemma_orbits_agree(advance, start, p, q, m);
    if p.len() < q.len() {
        // the shorter orbit ended in an escape, on a point that the longer one passed
        assert(call_ensures(exceeds, (&p[m],), true));
        assert(call_ensures(exceeds, (&q[m],), false));
        assert(false);
    } else if q.len() < p.len() {
        assert(call_ensures(exceeds, (&q[m],), true));
        assert(call_ensures(exceeds, (&p[m],), false));
        assert(false);
    } else {
        match (first.0, second.0) {
            (EscapeResult::Escaped { iteration: a }, EscapeResult::Bounded) => {
                assert(false);
            },
            (EscapeResult::Bounded, EscapeResult::Escaped { iteration: b }) => {
                assert(false);
            },
            _ => {},
        }
    }
}

/// A fixed point on which the escape test fails never escapes: the verdict
/// is `Bounded` and the iteration ends where it began.
pub proof fn lemma_fixed_point_bounded<Z, T: Fn(&Z) -> bool, U: Fn(Z) -> Z>(
    exceeds: T,
    advance: U,
    start: Z,
    cap: u32,
    result: EscapeResult,
    last: Z,
)
    requires
        escapes_as(exceeds, advance, start, cap, result, last),
        forall|next: Z| call_ensures(advance, (start,), next) ==> next == start,
        forall|b: bool| call_ensures(exceeds, (&start,), b) ==> !b,
    ensures
        result == EscapeResult::Bounded,
        last == start,
{
    let orbit = choose|orbit: Seq<Z>| follows(exceeds, advance, start, cap, orbit, result, last);
    assert forall|i: int| 0 <= i < orbit.len() implies orbit[i] == start by {
        lemma_orbit_rests(advance, start, orbit, i);
    }
}

/// An orbit from a fixed point stays on it.
pub proof fn lemma_orbit_rests<Z, U: Fn(Z) -> Z>(advance: U, start: Z, orbit: Seq<Z>, i: int)
    requires
        is_orbit(advance, start, orbit),
        forall|next: Z| call_ensures(advance, (start,), next) ==> next == start,
        0 <= i < orbit.len(),
    ensures
        orbit[i] == start,
    decreases i,
{
    if i > 0 {
        lemma_orbit_rests(advance, start, orbit, i - 1);
        assert(call_ensures(advance, (orbit[i - 1],), orbit[i]));
    }
}

/// A verdict as a number: the iteration at which the point escaped, or the
/// cap where it stayed bounded.
pub open spec fn count_of(result: EscapeResult, cap: u32) -> int {
    match result {
        EscapeResult::Escaped { iteration } => iteration as int,
        EscapeResult::Bounded => cap as int,
    }
}

/// `inner(a, b)` orders points from the inside outwards in a way that the
/// iteration respects: the map keeps the order, and where the test holds on
/// a point it does not fail on a point farther out.
pub open spec fn keeps_order<Z, T: Fn(&Z) -> bool, U: Fn(Z) -> Z>(
    exceeds: T,
    advance: U,
    inner: spec_fn(Z, Z) -> bool,
) -> bool {
    &&& forall|a: Z, b: Z, c: Z, d: Z|
        inner(a, b) && #[trigger] call_ensures(advance, (a,), c) && #[trigger] call_ensures(advance, (b,), d)
            ==> inner(c, d)
    &&& forall|a: Z, b: Z|
        inner(a, b) && #[trigger] call_ensures(exceeds, (&a,), true) ==> !#[trigger] call_ensures(
            exceeds,
            (&b,),
            false,
        )
}

/// Two orbits whose starting points are in order stay in order as far as both
/// go.
pub proof fn lemma_orbits_in_order<Z, T: Fn(&Z) -> bool, U: Fn(Z) -> Z>(
    exceeds: T,
    advance: U,
    inner: spec_fn(Z, Z) -> bool,
    near: Seq<Z>,
    far: Seq<Z>,
    i: int,
)
    requires
        keeps_order(exceeds, advance, inner),
        is_orbit(advance, near[0], near),
        is_orbit(advance, far[0], far),
        inner(near[0], far[0]),
        0 <= i < near.len(),
        i < far.len(),
    ensures
        inner(near[i], far[i]),
    decreases i,
{
    if i > 0 {
        lemma_orbits_in_order(exceeds, advance, inner, near, far, i - 1);
        assert(call_ensures(advance, (near[i - 1],), near[i]));
        assert(call_ensures(advance, (far[i - 1],), far[i]));
    }
}

/// Counts do not fall toward the interior: of two starting points in an order
/// that the iteration respects, the inner one escapes no sooner than the outer
/// one, a bounded point counting as the cap.
pub proof fn lemma_counts_rise_inwards<Z, T: Fn(&Z) -> bool, U: Fn(Z) -> Z>(
    exceeds: T,
    advance: U,
    inner: spec_fn(Z, Z) -> bool,
    cap: u32,
    near: (Z, EscapeResult, Z),
    far: (Z, EscapeResult, Z),
)
    requires
        keeps_order(exceeds, advance, inner),
        inner(near.0, far.0),
        escapes_as(exceeds, advance, near.0, cap, near.1, near.2),
        escapes_as(exceeds, advance, far.0, cap, far.1, far.2),
    ensures
        count_of(near.1, cap) >= count_of(far.1, cap),
{
    let p = choose|orbit: Seq<Z>| follows(exceeds, advance, near.0, cap, orbit, near.1, near.2);
    let q = choose|orbit: Seq<Z>| follows(exceeds, advance, far.0, cap, orbit, far.1, far.2);
    if count_of(near.1, cap) < count_of(far.1, cap) {
        let n = count_of(near.1, cap);
        lemma_orbits_in_order(exceeds, advance, inner, p, q, n);
        assert(call_ensures(exceeds, (&p[n],), true));
        assert(call_ensures(exceeds, (&q[n],), false));
        assert(false);
    }
}

} // verus!
