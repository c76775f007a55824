use julia_set::color::{color_of, grayscale, interior, stops, Color, ColorMode, Palette};
use julia_set::escape::EscapeResult;

fn rgb(r: u8, g: u8, b: u8) -> Color {
    Color { r, g, b, a: 255 }
}

#[test]
fn interior_is_opaque_black() {
    assert_eq!(interior(), rgb(0, 0, 0));
}

#[test]
fn bounded_is_interior_in_both_modes() {
    let palette = Palette::new(1000, 4);
    let gray = color_of(EscapeResult::Bounded, 0, ColorMode::Grayscale, &palette);
    let ramp = color_of(EscapeResult::Bounded, 0, ColorMode::Gradient, &palette);
    assert_eq!(gray, interior());
    assert_eq!(ramp, interior());
    assert_eq!(color_of(EscapeResult::Bounded, 77, ColorMode::Grayscale, &palette), gray);
    assert_eq!(color_of(EscapeResult::Bounded, 4000, ColorMode::Gradient, &palette), ramp);
    assert_eq!(color_of(EscapeResult::Bounded, u32::MAX, ColorMode::Gradient, &Palette::new(7, 1)), ramp);
}

#[test]
fn grayscale_is_the_share_of_the_cap() {
    assert_eq!(grayscale(0, 1000), rgb(0, 0, 0));
    assert_eq!(grayscale(1, 1000), rgb(0, 0, 0));
    assert_eq!(grayscale(4, 1000), rgb(1, 1, 1));
    assert_eq!(grayscale(200, 1000), rgb(51, 51, 51));
    assert_eq!(grayscale(500, 1000), rgb(127, 127, 127));
    assert_eq!(grayscale(999, 1000), rgb(254, 254, 254));
    assert_eq!(grayscale(1000, 1000), rgb(255, 255, 255));
    assert_eq!(grayscale(1, 2), rgb(127, 127, 127));
    assert_eq!(grayscale(u32::MAX - 1, u32::MAX), rgb(254, 254, 254));
}

#[test]
fn grayscale_clamps_beyond_the_cap() {
    assert_eq!(grayscale(1001, 1000), rgb(255, 255, 255));
    assert_eq!(grayscale(u32::MAX, 1), rgb(255, 255, 255));
    assert_eq!(grayscale(0, 0), rgb(255, 255, 255));
}

#[test]
fn grayscale_never_falls() {
    let mut before = grayscale(0, 1000);
    for iteration in 1..=1000 {
        let next = grayscale(iteration, 1000);
        assert!(before.r <= next.r);
        assert_eq!((next.r, next.a), (next.g, 255));
        assert_eq!(next.g, next.b);
        before = next;
    }
}

#[test]
fn grayscale_mode_goes_by_the_count_and_the_cap() {
    let palette = Palette::new(10, 3);
    assert_eq!(palette.limit(), 10);
    for position in [0u32, 15, 30, 1000] {
        let color = color_of(EscapeResult::Escaped { iteration: 5 }, position, ColorMode::Grayscale, &palette);
        assert_eq!(color, rgb(127, 127, 127));
    }
}

#[test]
fn gradient_has_its_four_stops() {
    assert_eq!(stops(), vec![rgb(102, 143, 204), rgb(185, 83, 67), rgb(255, 211, 47), rgb(255, 255, 255)]);
}

#[test]
fn palette_runs_from_first_to_last_stop() {
    let palette = Palette::new(1000, 1);
    assert_eq!((palette.limit(), palette.last_place()), (1000, 1000));
    assert_eq!(palette.color_at(0), rgb(102, 143, 204));
    assert_eq!(palette.color_at(1000), rgb(255, 255, 255));
    let palette = Palette::new(1000, 256);
    assert_eq!((palette.limit(), palette.last_place()), (1000, 256_000));
    assert_eq!(palette.color_at(0), rgb(102, 143, 204));
    assert_eq!(palette.color_at(256_000), rgb(255, 255, 255));
}

#[test]
fn palette_interpolates_between_stops() {
    // with six places the stops lie at 0, 2, 4 and 6
    let palette = Palette::new(6, 1);
    assert_eq!(palette.color_at(1), rgb(144, 113, 136));
    assert_eq!(palette.color_at(2), rgb(185, 83, 67));
    assert_eq!(palette.color_at(3), rgb(220, 147, 57));
    assert_eq!(palette.color_at(4), rgb(255, 211, 47));
    assert_eq!(palette.color_at(5), rgb(255, 233, 151));
    let palette = Palette::new(3, 2);
    assert_eq!(palette.color_at(3), rgb(220, 147, 57));
    let palette = Palette::new(1000, 16);
    assert_eq!(palette.color_at(8000), rgb(220, 147, 57));
}

#[test]
fn palette_clamps_beyond_the_last_place() {
    let palette = Palette::new(1000, 2);
    assert_eq!(palette.color_at(2001), palette.color_at(2000));
    assert_eq!(palette.color_at(u32::MAX), rgb(255, 255, 255));
    let color = color_of(EscapeResult::Escaped { iteration: 999 }, 2500, ColorMode::Gradient, &palette);
    assert_eq!(color, rgb(255, 255, 255));
}

#[test]
fn palette_of_one_place_is_the_first_stop() {
    for (cap, steps) in [(0u32, 0u32), (0, 5), (1000, 0)] {
        let palette = Palette::new(cap, steps);
        assert_eq!((palette.limit(), palette.last_place()), (cap, 0));
        assert_eq!(palette.color_at(0), rgb(102, 143, 204));
        assert_eq!(palette.color_at(5), rgb(102, 143, 204));
    }
}

#[test]
fn gradient_mode_goes_by_the_position_not_the_count() {
    let palette = Palette::new(1000, 10);
    // a continuous index of 1.0 and one of 1.9, both of count 1
    let at_count = color_of(EscapeResult::Escaped { iteration: 1 }, 10, ColorMode::Gradient, &palette);
    let past_count = color_of(EscapeResult::Escaped { iteration: 1 }, 19, ColorMode::Gradient, &palette);
    assert_eq!(at_count.b, 204);
    assert_eq!(past_count.b, 203);
    for position in [0u32, 1, 3333, 5000, 9999] {
        for iteration in [0u32, 1, 500, 999] {
            let color = color_of(EscapeResult::Escaped { iteration }, position, ColorMode::Gradient, &palette);
            assert_eq!(color, palette.color_at(position));
            assert_eq!(color.a, 255);
        }
    }
    assert_ne!(palette.color_at(1), palette.color_at(9999));
}

#[test]
fn palette_of_given_colours_looks_them_up() {
    let colors = vec![rgb(1, 2, 3), rgb(4, 5, 6), rgb(7, 8, 9)];
    let palette = Palette::from_colors(10, colors.clone()).unwrap();
    assert_eq!((palette.limit(), palette.last_place()), (10, 2));
    for (place, color) in colors.iter().enumerate() {
        assert_eq!(palette.color_at(place as u32), *color);
        let mapped = color_of(EscapeResult::Escaped { iteration: 9 }, place as u32, ColorMode::Gradient, &palette);
        assert_eq!(mapped, *color);
    }
    assert_eq!(palette.color_at(3), rgb(7, 8, 9));
    let gray = color_of(EscapeResult::Escaped { iteration: 5 }, 1, ColorMode::Grayscale, &palette);
    assert_eq!(gray, rgb(127, 127, 127));
    assert_eq!(color_of(EscapeResult::Bounded, 1, ColorMode::Gradient, &palette), interior());
}

#[test]
fn palette_needs_a_colour() {
    assert!(Palette::from_colors(1000, Vec::new()).is_none());
    let single = Palette::from_colors(1000, vec![rgb(9, 9, 9)]).unwrap();
    assert_eq!((single.limit(), single.last_place()), (1000, 0));
    assert_eq!(single.color_at(0), rgb(9, 9, 9));
    assert_eq!(single.color_at(1), rgb(9, 9, 9));
}

#[test]
fn toggling_switches_the_mode_and_back() {
    assert_eq!(ColorMode::Grayscale.toggled(), ColorMode::Gradient);
    assert_eq!(ColorMode::Gradient.toggled(), ColorMode::Grayscale);
    assert_eq!(ColorMode::Grayscale.toggled().toggled(), ColorMode::Grayscale);
}
