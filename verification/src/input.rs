//! Pointer input: which gestures a frame's pointer state amounts to.

use vstd::prelude::*;

verus! {

/// What the pointer did over the grid during one frame.
#[derive(Clone, Copy, PartialEq, Eq, Structural, Debug)]
pub struct Pointer {
    /// The grid is being dragged with the secondary button.
    pub secondary_drag: bool,
    /// The grid is being dragged with the primary button.
    pub primary_drag: bool,
    /// Shift is held, and no other modifier.
    pub shift_only: bool,
    /// The pointer is over the grid.
    pub hovering: bool,
    /// The grid was clicked.
    pub clicked: bool,
}

/// What a frame does in answer to the pointer.
#[derive(Clone, Copy, PartialEq, Eq, Structural, Debug)]
pub struct Gestures {
    /// Move the view by the distance dragged.
    pub pan: bool,
    /// Zoom about the pointer by the distance scrolled.
    pub zoom: bool,
    /// Queue an edit of the cell under the pointer.
    pub edit: bool,
}

/// The gestures of a frame.
///
/// The view is panned by a drag with the secondary button, or with the
/// primary button while shift alone is held. While the pointer is over the
/// grid the view zooms about it, and a click edits the cell under it.
pub open spec fn spec_gestures(pointer: Pointer) -> Gestures {
    Gestures {
        pan: pointer.secondary_drag || (pointer.primary_drag && pointer.shift_only),
        zoom: pointer.hovering,
        edit: pointer.hovering && pointer.clicked,
    }
}

/// The gestures of a frame: see [`spec_gestures`].
pub fn gestures(pointer: Pointer) -> (gestures: Gestures)
    ensures
        gestures == spec_gestures(pointer),
{
    Gestures {
        pan: pointer.secondary_drag || (pointer.primary_drag && pointer.shift_only),
        zoom: pointer.hovering,
        edit: pointer.hovering && pointer.clicked,
    }
}

} // verus!
