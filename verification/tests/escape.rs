use julia_set::escape::{evaluate, EscapeResult};

const CAP: u32 = 1000;
const BOUND_SQUARED: f32 = 4.0;

fn exceeds(z: &(f32, f32)) -> bool {
    z.0 * z.0 + z.1 * z.1 > BOUND_SQUARED
}

fn julia_step(z: (f32, f32), c: (f32, f32)) -> (f32, f32) {
    (z.0 * z.0 - z.1 * z.1 + c.0, z.0 * z.1 + z.1 * z.0 + c.1)
}

fn verdict(start: (f32, f32), c: (f32, f32)) -> EscapeResult {
    evaluate(start, CAP, &exceeds, &|z| julia_step(z, c)).0
}

#[test]
fn origin_under_zero_parameter_is_bounded() {
    let (result, last) = evaluate((0.0f32, 0.0f32), CAP, &exceeds, &|z| julia_step(z, (0.0, 0.0)));
    assert_eq!(result, EscapeResult::Bounded);
    assert_eq!(last, (0.0, 0.0));
}

#[test]
fn start_beyond_the_bound_escapes_at_once() {
    let c = (-0.391f32, -0.587f32);
    for start in [(2.5f32, 0.0f32), (-2.0, 1.0), (0.0, 2.0001), (1.5, 1.5), (-100.0, 42.0)] {
        assert!(exceeds(&start));
        let (result, last) = evaluate(start, CAP, &exceeds, &|z| julia_step(z, c));
        assert_eq!(result, EscapeResult::Escaped { iteration: 0 });
        assert_eq!(last, start);
    }
}

#[test]
fn start_on_the_bound_is_not_yet_outside() {
    // |z|^2 == 4 is not greater than 4: the point is updated once before it escapes
    let result = verdict((-2.0, 0.0), (-0.391, -0.587));
    assert_eq!(result, EscapeResult::Escaped { iteration: 1 });
}

#[test]
fn test_comes_before_update() {
    // a counter that starts below the bound and passes it after three updates
    let (result, last) = evaluate(0u32, 10, &|n: &u32| *n >= 3, &|n: u32| n + 1);
    assert_eq!(result, EscapeResult::Escaped { iteration: 3 });
    assert_eq!(last, 3);
}

#[test]
fn cap_ends_the_iteration() {
    let (result, last) = evaluate(0u32, 10, &|n: &u32| *n >= 10, &|n: u32| n + 1);
    assert_eq!(result, EscapeResult::Bounded);
    assert_eq!(last, 10);
    let (result, last) = evaluate(0u32, 11, &|n: &u32| *n >= 10, &|n: u32| n + 1);
    assert_eq!(result, EscapeResult::Escaped { iteration: 10 });
    assert_eq!(last, 10);
}

#[test]
fn zero_cap_is_bounded_without_a_test() {
    let (result, last) = evaluate(7u32, 0, &|_n: &u32| true, &|n: u32| n + 1);
    assert_eq!(result, EscapeResult::Bounded);
    assert_eq!(last, 7);
}

#[test]
fn never_escaping_test_is_bounded() {
    let (result, last) = evaluate(1u64, 20, &|_n: &u64| false, &|n: u64| n * 2);
    assert_eq!(result, EscapeResult::Bounded);
    assert_eq!(last, 1 << 20);
}

#[test]
fn counts_along_the_real_axis_do_not_fall_toward_the_origin() {
    let c = (-0.391f32, -0.587f32);
    let ray = [2.5f32, 2.0, 1.5, 1.25, 1.0, 0.75, 0.5, 0.25, 0.0];
    let mut counts = Vec::new();
    for re in ray {
        counts.push(match verdict((re, 0.0), c) {
            EscapeResult::Escaped { iteration } => iteration,
            EscapeResult::Bounded => CAP,
        });
    }
    for pair in counts.windows(2) {
        assert!(pair[0] <= pair[1]);
    }
    assert_eq!(counts[..6], [0, 1, 2, 2, 4, 6]);
    assert_eq!(counts[7..], [CAP, CAP]);
}

#[test]
fn end_to_end_counts_match_the_baseline() {
    let (width, height) = (4usize, 2usize);
    let (zoom, shift) = (1.0f32, (2.0f32, 1.0f32));
    let c = (-0.391f32, -0.587f32);
    let mut points = Vec::new();
    let mut counts = Vec::new();
    for y in 0..height {
        for x in 0..width {
            let point = ((x as f32 - shift.0) / zoom, -(y as f32 - shift.1) / zoom);
            points.push(point);
            counts.push(verdict(point, c));
        }
    }
    assert_eq!(
        points,
        vec![(-2.0, 1.0), (-1.0, 1.0), (0.0, 1.0), (1.0, 1.0), (-2.0, 0.0), (-1.0, 0.0), (0.0, 0.0), (1.0, 0.0)]
    );
    assert_eq!(
        counts,
        vec![
            EscapeResult::Escaped { iteration: 0 },
            EscapeResult::Escaped { iteration: 1 },
            EscapeResult::Escaped { iteration: 4 },
            EscapeResult::Escaped { iteration: 2 },
            EscapeResult::Escaped { iteration: 1 },
            EscapeResult::Escaped { iteration: 4 },
            EscapeResult::Bounded,
            EscapeResult::Escaped { iteration: 4 },
        ]
    );
}

#[test]
fn counts_under_zero_parameter_do_not_fall_toward_the_origin() {
    let c = (0.0f32, 0.0f32);
    let ray = [100.0f32, 3.0, 2.5, 2.0001, 2.0, 1.9, 1.5, 1.1, 1.001, 1.0, 0.999, 0.5, 0.0];
    let mut counts = Vec::new();
    for re in ray {
        counts.push(match verdict((re, 0.0), c) {
            EscapeResult::Escaped { iteration } => iteration,
            EscapeResult::Bounded => CAP,
        });
    }
    for pair in counts.windows(2) {
        assert!(pair[0] <= pair[1]);
    }
    // beyond the bound at once, on the bound after one update, within the unit disc never
    assert_eq!(counts[..6], [0, 0, 0, 0, 1, 1]);
    assert_eq!(counts[9..], [CAP, CAP, CAP, CAP]);
}
