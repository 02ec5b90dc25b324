//! Where a moment lies in the picture that the display draws. Time is counted
//! in M-cycles since the machine was started.

use vstd::prelude::*;

verus! {

/// M-cycles that one line of the picture takes.
pub const LINE_CYCLES: u64 = 114;

/// The line on which the vertical blank starts.
pub const VBLANK_FIRST_LINE: u64 = 144;

/// Lines in a frame, those of the vertical blank included.
pub const FRAME_LINES: u64 = 154;

/// M-cycles that a frame takes.
pub const FRAME_CYCLES: u64 = 17556;

/// Where in a frame the vertical blank starts.
pub const VBLANK_START: u64 = VBLANK_FIRST_LINE * LINE_CYCLES;

/// Where in a frame the vertical blank ends.
pub const VBLANK_END: u64 = FRAME_LINES * LINE_CYCLES;

/// A moment, as the frame that it lies in and how far into that frame.
#[derive(Clone, Copy, Debug, PartialEq, Eq, Structural)]
pub struct FramePosition {
    pub frame: u64,
    pub pos: u64,
    pub in_vblank: bool,
}

impl FramePosition {
    /// The position at time `t`.
    pub open spec fn at(t: u64) -> FramePosition {
        let pos = t % FRAME_CYCLES;
        FramePosition {
            frame: t / FRAME_CYCLES,
            pos,
            in_vblank: VBLANK_START <= pos < VBLANK_END,
        }
    }

    /// Computes the position at time `t`.
    pub fn new(t: u64) -> (position: FramePosition)
        ensures
            position == FramePosition::at(t),
    {
        let pos: u64 = t % FRAME_CYCLES;
        FramePosition {
            frame: t / FRAME_CYCLES,
            pos,
            in_vblank: pos >= VBLANK_START && pos < VBLANK_END,
        }
    }
}

/// A frame and a position in it give the time back; the position lies inside
/// the frame; and the vertical blank is exactly the last ten lines of a frame.
pub proof fn lemma_frame_position(t: u64)
    ensures
        FramePosition::at(t).frame * FRAME_CYCLES + FramePosition::at(t).pos == t,
        FramePosition::at(t).pos < FRAME_CYCLES,
        FramePosition::at(t).in_vblank <==> FramePosition::at(t).pos / LINE_CYCLES
            >= VBLANK_FIRST_LINE,
        FRAME_CYCLES == FRAME_LINES * LINE_CYCLES,
        VBLANK_END == FRAME_CYCLES,
        FramePosition::at(t).frame * 17556 + FramePosition::at(t).pos == t,
        FramePosition::at(t).pos < 17556,
        FramePosition::at(t).in_vblank <==> FramePosition::at(t).pos >= 16416,
{
}

} // verus!
