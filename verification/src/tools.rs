//! What the mouse does to the scene: grabbing bodies, and painting or erasing.

use crate::body::{position_of, BodyId};
use crate::material::MaterialId;
use vstd::prelude::*;

verus! {

/// What the buttons say this frame.
#[derive(Clone, Copy, Debug, PartialEq, Eq, Structural)]
pub struct Buttons {
    /// The left button went down, is down, and came up.
    pub pressed: bool,
    pub down: bool,
    pub released: bool,
}

/// What a frame of grabbing does next.
#[derive(Clone, Copy, Debug, PartialEq, Eq, Structural)]
pub enum GrabAction {
    /// Nothing more.
    Idle,
    /// Look for a body under the cursor and pick it up.
    Pick,
    /// Pull what is held toward the cursor.
    Pull,
}

/// Whether the mouse lets go: the button came up, or what it held was erased away
/// or removed.
pub open spec fn lets_go(buttons: Buttons, held: BodyId, ids: Seq<BodyId>) -> bool {
    buttons.released || !ids.contains(held)
}

/// One frame of the mouse grab: what is still held, and what to do next. `aimed`
/// tells whether there is a camera, and a cursor in the window.
///
/// In grab mode, holding the left mouse on a body picks it up: a joint holds the
/// clicked point at a point on the cursor's ray. Letting go drops it, with whatever
/// momentum it has. Out of grab mode nothing happens, and what is held is kept.
pub fn grab_frame(
    enabled: bool,
    buttons: Buttons,
    held: Option<BodyId>,
    ids: &[BodyId],
    aimed: bool,
) -> (r: (Option<BodyId>, GrabAction))
    ensures
        !enabled ==> r == (held, GrabAction::Idle),
        enabled ==> {
            &&& r.0 == match held {
                Some(id) => if lets_go(buttons, id, ids@) {
                    None
                } else {
                    Some(id)
                },
                None => None,
            }
            &&& r.1 == if buttons.released || !aimed {
                GrabAction::Idle
            } else if buttons.pressed {
                GrabAction::Pick
            } else if buttons.down && r.0 is Some {
                GrabAction::Pull
            } else {
                GrabAction::Idle
            }
        },
        r.0 is Some ==> r.0 == held,
        enabled && buttons.released ==> r == (None::<BodyId>, GrabAction::Idle),
        r.1 == GrabAction::Pull ==> enabled && aimed && buttons.down && r.0 is Some && ids@.contains(
            r.0->0,
        ),
        r.1 == GrabAction::Pick <==> enabled && aimed && buttons.pressed && !buttons.released,
{
    if !enabled {
        return (held, GrabAction::Idle);
    }
    if buttons.released {
        return (None, GrabAction::Idle);
    }
    let kept = match held {
        Some(id) => match position_of(ids, id) {
            Some(i) => {
                assert(ids@[i as int] == id);
                Some(id)
            },
            None => None,
        },
        None => None,
    };
    if !aimed {
        return (kept, GrabAction::Idle);
    }
    if buttons.pressed {
        return (kept, GrabAction::Pick);
    }
    if buttons.down && kept.is_some() {
        return (kept, GrabAction::Pull);
    }
    (kept, GrabAction::Idle)
}

/// Grab mode switched on or off. Either way lets go.
pub fn toggle_grab(enabled: bool) -> (r: (bool, Option<BodyId>))
    ensures
        r == (!enabled, None::<BodyId>),
{
    (!enabled, None)
}

/// What a click does: left paints and right erases. In grab mode the left mouse
/// grabs; only the erase is left. `None` where there is nothing to do.
pub fn stroke_material(
    left: bool,
    right: bool,
    grabbing: bool,
    brush: MaterialId,
) -> (material: Option<MaterialId>)
    ensures
        material == if right {
            Some(MaterialId(0))
        } else if left && !grabbing {
            Some(brush)
        } else {
            None
        },
        material is None <==> !right && (!left || grabbing),
        right ==> material == Some(MaterialId(0)),
        left && !right && !grabbing ==> material == Some(brush),
{
    if right {
        Some(MaterialId::empty())
    } else if left && !grabbing {
        Some(brush)
    } else {
        None
    }
}

/// What a stroke is on.
#[derive(Clone, Copy, Debug, PartialEq, Eq, Structural)]
pub enum Target {
    World,
    Body(usize),
}

/// What a stroke does.
#[derive(Clone, Copy, Debug, PartialEq, Eq, Structural)]
pub enum Stroke {
    /// Erases the world, and detaches whatever that cut free.
    EraseAndDetach,
    /// Paints the world.
    Paint,
    /// Edits a body, and asks for a rebuild: its geometry is packed whole.
    Sculpt(usize),
}

/// Which edit a stroke with a material on a target is.
pub fn stroke(target: Target, material: MaterialId) -> (stroke: Stroke)
    ensures
        stroke == match target {
            Target::Body(i) => Stroke::Sculpt(i),
            Target::World => if material == MaterialId(0) {
                Stroke::EraseAndDetach
            } else {
                Stroke::Paint
            },
        },
        stroke is Sculpt <==> target is Body,
        stroke matches Stroke::Sculpt(i) ==> target == Target::Body(i),
        stroke == Stroke::EraseAndDetach <==> target == Target::World && material.0 == 0,
        stroke == Stroke::Paint <==> target == Target::World && material.0 != 0,
{
    match target {
        Target::Body(i) => Stroke::Sculpt(i),
        Target::World => {
            if material.is_empty() {
                Stroke::EraseAndDetach
            } else {
                Stroke::Paint
            }
        },
    }
}

/// The mouse lets go where its button came up, and where no body has the number it
/// holds any more; else it holds on.
pub proof fn law_the_mouse_holds_on_to_what_is_there(
    buttons: Buttons,
    held: BodyId,
    ids: Seq<BodyId>,
)
    ensures
        lets_go(buttons, held, ids) <==> buttons.released || forall|i: int|
            0 <= i < ids.len() ==> #[trigger] ids[i] != held,
{
}

} // verus!
