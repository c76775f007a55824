use julia_set::control::{change_c, change_center, change_zoom, commands, toggle_color, Command, Keys};

fn idle() -> Keys {
    Keys {
        left_control: false,
        minus: false,
        equal: false,
        left: false,
        right: false,
        up: false,
        down: false,
        w: false,
        a: false,
        s: false,
        d: false,
        c: false,
    }
}

#[test]
fn idle_keys_ask_for_nothing() {
    assert_eq!(commands(&idle()), Vec::new());
    assert_eq!(change_zoom(&idle()), None);
    assert_eq!(toggle_color(&idle()), None);
}

#[test]
fn zoom_needs_the_control_key() {
    assert_eq!(change_zoom(&Keys { minus: true, ..idle() }), None);
    assert_eq!(change_zoom(&Keys { equal: true, ..idle() }), None);
    assert_eq!(change_zoom(&Keys { left_control: true, ..idle() }), None);
    assert_eq!(change_zoom(&Keys { left_control: true, minus: true, ..idle() }), Some(Command::ZoomOut));
    assert_eq!(change_zoom(&Keys { left_control: true, equal: true, ..idle() }), Some(Command::ZoomIn));
}

#[test]
fn zooming_out_wins_over_zooming_in() {
    let keys = Keys { left_control: true, minus: true, equal: true, ..idle() };
    assert_eq!(change_zoom(&keys), Some(Command::ZoomOut));
    assert_eq!(commands(&keys), vec![Command::ZoomOut]);
}

#[test]
fn each_arrow_pans_one_step() {
    assert_eq!(change_center(&Keys { left: true, ..idle() }), vec![Command::Pan { dx: 1, dy: 0 }]);
    assert_eq!(change_center(&Keys { right: true, ..idle() }), vec![Command::Pan { dx: -1, dy: 0 }]);
    assert_eq!(change_center(&Keys { up: true, ..idle() }), vec![Command::Pan { dx: 0, dy: 1 }]);
    assert_eq!(change_center(&Keys { down: true, ..idle() }), vec![Command::Pan { dx: 0, dy: -1 }]);
}

#[test]
fn held_arrows_pan_in_a_fixed_order() {
    let keys = Keys { left: true, right: true, up: true, down: true, ..idle() };
    assert_eq!(
        change_center(&keys),
        vec![
            Command::Pan { dx: 1, dy: 0 },
            Command::Pan { dx: -1, dy: 0 },
            Command::Pan { dx: 0, dy: 1 },
            Command::Pan { dx: 0, dy: -1 },
        ]
    );
    let keys = Keys { right: true, down: true, ..idle() };
    assert_eq!(change_center(&keys), vec![Command::Pan { dx: -1, dy: 0 }, Command::Pan { dx: 0, dy: -1 }]);
}

#[test]
fn letters_move_the_parameter() {
    assert_eq!(change_c(&Keys { w: true, ..idle() }), vec![Command::AdjustParameter { dr: 0, di: 1 }]);
    assert_eq!(change_c(&Keys { a: true, ..idle() }), vec![Command::AdjustParameter { dr: -1, di: 0 }]);
    assert_eq!(change_c(&Keys { s: true, ..idle() }), vec![Command::AdjustParameter { dr: 0, di: -1 }]);
    assert_eq!(change_c(&Keys { d: true, ..idle() }), vec![Command::AdjustParameter { dr: 1, di: 0 }]);
    let keys = Keys { w: true, a: true, s: true, d: true, ..idle() };
    assert_eq!(
        change_c(&keys),
        vec![
            Command::AdjustParameter { dr: 0, di: 1 },
            Command::AdjustParameter { dr: -1, di: 0 },
            Command::AdjustParameter { dr: 0, di: -1 },
            Command::AdjustParameter { dr: 1, di: 0 },
        ]
    );
}

#[test]
fn c_toggles_the_colour_mode() {
    assert_eq!(toggle_color(&Keys { c: true, ..idle() }), Some(Command::ToggleColorMode));
    assert_eq!(commands(&Keys { c: true, ..idle() }), vec![Command::ToggleColorMode]);
}

#[test]
fn a_tick_orders_zoom_pan_parameter_toggle() {
    let keys = Keys { left_control: true, equal: true, up: true, left: true, d: true, w: true, c: true, ..idle() };
    assert_eq!(
        commands(&keys),
        vec![
            Command::ZoomIn,
            Command::Pan { dx: 1, dy: 0 },
            Command::Pan { dx: 0, dy: 1 },
            Command::AdjustParameter { dr: 0, di: 1 },
            Command::AdjustParameter { dr: 1, di: 0 },
            Command::ToggleColorMode,
        ]
    );
}
