//! The viewer's small decisions: which zoom level and frame time a key
//! press leads to, and which frame comes next.

use vstd::prelude::*;

verus! {

/// Milliseconds per frame at the slow speed.
pub const SPEED_SLOW: usize = 200;

/// Milliseconds per frame at the middle speed.
pub const SPEED_MID: usize = 100;

/// Milliseconds per frame at the fast speed.
pub const SPEED_FAST: usize = 60;

/// Where on the window an image is drawn.
#[derive(Clone, Copy, Debug, PartialEq, Eq, Structural)]
pub enum RenderableType {
    /// The radar image itself, in the upper part of the window.
    MainImage,
    /// A narrow slice along the bottom of the window.
    BottomSlice,
}

/// The zoom level one step further in (`closer`) or out from `zoom`, where
/// the levels are 0, 1 and 2 and a step beyond either end stays at the end.
/// A `zoom` that is none of the three counts as the far end of the
/// direction it is left in.
pub open spec fn zoom_after(zoom: usize, closer: bool) -> usize {
    if closer {
        if zoom == 0 {
            1
        } else {
            2
        }
    } else if zoom == 2 {
        1
    } else {
        0
    }
}

/// The zoom level after a key press that zooms in (`closer`) or out.
pub fn change_zoom(zoom: usize, closer: bool) -> (r: usize)
    ensures
        r == zoom_after(zoom, closer),
        r <= 2,
{
    if closer {
        if zoom == 0 {
            1
        } else {
            2
        }
    } else if zoom == 2 {
        1
    } else {
        0
    }
}

/// The frame time one step faster (`increase`) or slower than `current`,
/// among slow, middle and fast; a step beyond either end stays at the end.
pub open spec fn speed_after(current: usize, increase: bool) -> usize {
    if increase {
        if current == SPEED_SLOW {
            SPEED_MID
        } else {
            SPEED_FAST
        }
    } else if current == SPEED_FAST {
        SPEED_MID
    } else {
        SPEED_SLOW
    }
}

/// The frame time after a key press that speeds the animation up
/// (`increase`) or slows it down.
pub fn change_speed(current: usize, increase: bool) -> (r: usize)
    ensures
        r == speed_after(current, increase),
        r == SPEED_SLOW || r == SPEED_MID || r == SPEED_FAST,
{
    if increase {
        if current == SPEED_SLOW {
            SPEED_MID
        } else {
            SPEED_FAST
        }
    } else if current == SPEED_FAST {
        SPEED_MID
    } else {
        SPEED_SLOW
    }
}

/// The frame that follows frame `index` of `len` frames: the next one, or
/// the first again after the last.
pub fn next_frame(index: usize, len: usize) -> (r: usize)
    ensures
        r == if index + 1 < len {
            index + 1
        } else {
            0
        },
{
    if len > 0 && index < len - 1 {
        index + 1
    } else {
        0
    }
}

/// The frame to show after a change of zoom level: the same index where the
/// new level has that many frames, else the first.
pub fn frame_after_zoom(index: usize, len: usize) -> (r: usize)
    ensures
        r == if len <= index {
            0
        } else {
            index
        },
{
    if len <= index {
        0
    } else {
        index
    }
}

} // verus!
