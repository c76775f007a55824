//! The view controller's decisions: which adjustments a tick of input asks
//! for, and in which order they apply.

use vstd::prelude::*;

verus! {

/// The keys that steer the view, as they stand at one tick. `minus`, `equal`
/// and `c` say whether the key went down in this tick; the others whether it
/// is held.
#[derive(Clone, Copy, Debug, PartialEq, Eq, Structural)]
pub struct Keys {
    pub left_control: bool,
    pub minus: bool,
    pub equal: bool,
    pub left: bool,
    pub right: bool,
    pub up: bool,
    pub down: bool,
    pub w: bool,
    pub a: bool,
    pub s: bool,
    pub d: bool,
    pub c: bool,
}

/// One adjustment of the view.
#[derive(Clone, Copy, Debug, PartialEq, Eq, Structural)]
pub enum Command {
    /// Multiply the zoom by the zoom factor.
    ZoomIn,
    /// Divide the zoom by the zoom factor.
    ZoomOut,
    /// Shift the centre by `dx` and `dy` pan steps.
    Pan { dx: i8, dy: i8 },
    /// Change the parameter's real part by `dr` and its imaginary part by
    /// `di` parameter steps.
    AdjustParameter { dr: i8, di: i8 },
    /// Switch to the other colour mode.
    ToggleColorMode,
}

/// `command` if `wanted`, else nothing.
pub open spec fn when(wanted: bool, command: Command) -> Seq<Command> {
    if wanted {
        seq![command]
    } else {
        Seq::empty()
    }
}

/// The zoom adjustment of a tick. Zooming needs the control key; with both
/// zoom keys the view zooms out.
pub open spec fn zoom_commands(keys: Keys) -> Seq<Command> {
    if keys.left_control && keys.minus {
        seq![Command::ZoomOut]
    } else if keys.left_control && keys.equal {
        seq![Command::ZoomIn]
    } else {
        Seq::empty()
    }
}

/// The pans of a tick: one step per arrow key that is held, in the order
/// left, right, up, down.
pub open spec fn pan_commands(keys: Keys) -> Seq<Command> {
    when(keys.left, Command::Pan { dx: 1, dy: 0 }) + when(keys.right, Command::Pan { dx: -1i8, dy: 0 }) + when(
        keys.up,
        Command::Pan { dx: 0, dy: 1 },
    ) + when(keys.down, Command::Pan { dx: 0, dy: -1i8 })
}

/// The parameter changes of a tick: one step per key that is held, in the
/// order W, A, S, D.
pub open spec fn parameter_commands(keys: Keys) -> Seq<Command> {
    when(keys.w, Command::AdjustParameter { dr: 0, di: 1 }) + when(
        keys.a,
        Command::AdjustParameter { dr: -1i8, di: 0 },
    ) + when(keys.s, Command::AdjustParameter { dr: 0, di: -1i8 }) + when(
        keys.d,
        Command::AdjustParameter { dr: 1, di: 0 },
    )
}

/// All adjustments of a tick, in the order in which they apply: zoom, pans,
/// parameter changes, colour mode.
pub open spec fn tick_commands(keys: Keys) -> Seq<Command> {
    zoom_commands(keys) + pan_commands(keys) + parameter_commands(keys) + when(
        keys.c,
        Command::ToggleColorMode,
    )
}

/// The zoom adjustment that the keys ask for, if any.
pub fn change_zoom(keys: &Keys) -> (r: Option<Command>)
    ensures
        zoom_commands(*keys) == match r {
            Some(command) => seq![command],
            None => Seq::empty(),
        },
{
    if keys.left_control && keys.minus {
        Some(Command::ZoomOut)
    } else if keys.left_control && keys.equal {
        Some(Command::ZoomIn)
    } else {
        None
    }
}

/// The pans that the keys ask for.
pub fn change_center(keys: &Keys) -> (r: Vec<Command>)
    ensures
        r@ == pan_commands(*keys),
{
    let mut commands: Vec<Command> = Vec::new();
    if keys.left {
        commands.push(Command::Pan { dx: 1, dy: 0 });
    }
    if keys.right {
        commands.push(Command::Pan { dx: -1i8, dy: 0 });
    }
    if keys.up {
        commands.push(Command::Pan { dx: 0, dy: 1 });
    }
    if keys.down {
        commands.push(Command::Pan { dx: 0, dy: -1i8 });
    }
    proof {
        assert(commands@ =~= pan_commands(*keys));
    }
    commands
}

/// The parameter changes that the keys ask for.
pub fn change_c(keys: &Keys) -> (r: Vec<Command>)
    ensures
        r@ == parameter_commands(*keys),
{
    let mut commands: Vec<Command> = Vec::new();
    if keys.w {
        commands.push(Command::AdjustParameter { dr: 0, di: 1 });
    }
    if keys.a {
        commands.push(Command::AdjustParameter { dr: -1i8, di: 0 });
    }
    if keys.s {
        commands.push(Command::AdjustParameter { dr: 0, di: -1i8 });
    }
    if keys.d {
        commands.push(Command::AdjustParameter { dr: 1, di: 0 });
    }
    proof {
        assert(commands@ =~= parameter_commands(*keys));
    }
    commands
}

/// The colour mode switch that the keys ask for, if any.
pub fn toggle_color(keys: &Keys) -> (r: Option<Command>)
    ensures
        r == if keys.c {
            Some(Command::ToggleColorMode)
        } else {
            None
        },
{
    if keys.c {
        Some(Command::ToggleColorMode)
    } else {
        None
    }
}

/// Everything that the keys ask for in one tick, in the order in which it
/// applies.
pub fn commands(keys: &Keys) -> (r: Vec<Command>)
    ensures
        r@ == tick_commands(*keys),
{
    let mut all: Vec<Command> = Vec::new();
    if let Some(zoom) = change_zoom(keys) {
        all.push(zoom);
    }
    let mut pans = change_center(keys);
    all.append(&mut pans);
    let mut changes = change_c(keys);
    all.append(&mut changes);
    if let Some(toggle) = toggle_color(keys) {
        all.push(toggle);
    }
    proof {
        assert(all@ =~= tick_commands(*keys));
    }
    all
}

} // verus!
