//! Drives a screenshot: wait for the scan, let the map render, ask the window
//! to capture itself, save the reply, quit.

use vstd::prelude::*;

verus! {

/// Frames between "the tree is ready" and asking for the capture.
pub const SHOT_WARMUP_FRAMES: u32 = 4;

/// Roughly 30 s at the repaint rate, then give up.
pub const SHOT_MAX_FRAMES: u32 = 2000;

#[derive(Clone, Copy, Debug, PartialEq, Eq, Structural)]
pub struct Screenshot {
    /// Frames to let pass after the scan lands, so the map texture is up.
    pub warmup: u32,
    pub requested: bool,
    /// Frames waited in total, so a scan that never finishes still exits.
    pub waited: u32,
}

/// What to do in this frame.
#[derive(Clone, Copy, Debug, PartialEq, Eq, Structural)]
pub enum Shot {
    /// Save the captured image and quit.
    Save,
    /// Nothing came; quit.
    GiveUp,
    /// Let the frame pass.
    Wait,
    /// Let the frame pass, with the largest file selected.
    Select,
    /// Ask the window to capture itself.
    Capture,
}

/// What to do in a frame, and the state after it.
pub open spec fn shot_step(
    shot: Screenshot,
    captured: bool,
    scanning: bool,
    has_tree: bool,
) -> (Shot, Screenshot) {
    if captured {
        (Shot::Save, shot)
    } else {
        let next = Screenshot { waited: (shot.waited + 1) as u32, ..shot };
        if next.waited > SHOT_MAX_FRAMES {
            (Shot::GiveUp, next)
        } else if scanning || !has_tree {
            (Shot::Wait, next)
        } else if next.warmup > 0 {
            let next = Screenshot { warmup: (next.warmup - 1) as u32, ..next };
            (
                if next.warmup == 0 {
                    Shot::Select
                } else {
                    Shot::Wait
                },
                next,
            )
        } else if !next.requested {
            (Shot::Capture, Screenshot { requested: true, ..next })
        } else {
            (Shot::Wait, next)
        }
    }
}

impl Screenshot {
    pub fn new() -> (shot: Screenshot)
        ensures
            shot == (Screenshot { warmup: SHOT_WARMUP_FRAMES, requested: false, waited: 0 }),
    {
        Screenshot { warmup: SHOT_WARMUP_FRAMES, requested: false, waited: 0 }
    }

    /// Decides one frame. `captured` says whether the captured image has
    /// arrived; it does so on a later frame than it was asked for.
    pub fn drive_screenshot(&mut self, captured: bool, scanning: bool, has_tree: bool) -> (shot:
        Shot)
        requires
            old(self).waited <= SHOT_MAX_FRAMES,
        ensures
            (shot, *final(self)) == shot_step(*old(self), captured, scanning, has_tree),
            !(shot is GiveUp) ==> final(self).waited <= SHOT_MAX_FRAMES,
    {
        if captured {
            return Shot::Save;
        }
        self.waited = self.waited + 1;
        if self.waited > SHOT_MAX_FRAMES {
            return Shot::GiveUp;
        }
        if scanning || !has_tree {
            return Shot::Wait;
        }
        if self.warmup > 0 {
            self.warmup = self.warmup - 1;
            if self.warmup == 0 {
                return Shot::Select;
            }
        } else if !self.requested {
            self.requested = true;
            return Shot::Capture;
        }
        Shot::Wait
    }
}

/// The state after `frames` frames without a captured image, the tree being
/// ready all the while.
pub open spec fn after_frames(shot: Screenshot, frames: nat) -> Screenshot
    decreases frames,
{
    if frames == 0 {
        shot
    } else {
        shot_step(after_frames(shot, (frames - 1) as nat), false, false, true).1
    }
}

/// The capture is asked for exactly once: in the fifth frame after the tree is
/// ready, and never again.
pub proof fn lemma_captured_once(frames: nat)
    requires
        frames <= SHOT_MAX_FRAMES,
    ensures
        ({
            let start = Screenshot { warmup: SHOT_WARMUP_FRAMES, requested: false, waited: 0 };
            let shot = after_frames(start, frames);
            &&& shot.waited == frames
            &&& shot.requested <==> frames > SHOT_WARMUP_FRAMES
            &&& frames < SHOT_MAX_FRAMES ==> (shot_step(shot, false, false, true).0 is Capture
                <==> frames == SHOT_WARMUP_FRAMES)
        }),
    decreases frames,
{
    lemma_frames(frames);
}

proof fn lemma_frames(frames: nat)
    requires
        frames <= SHOT_MAX_FRAMES,
    ensures
        after_frames(
            Screenshot { warmup: SHOT_WARMUP_FRAMES, requested: false, waited: 0 },
            frames,
        ) == (Screenshot {
            warmup: if frames < SHOT_WARMUP_FRAMES {
                (SHOT_WARMUP_FRAMES - frames) as u32
            } else {
                0
            },
            requested: frames > SHOT_WARMUP_FRAMES,
            waited: frames as u32,
        }),
    decreases frames,
{
    if frames > 0 {
        lemma_frames((frames - 1) as nat);
    }
}

/// A scan that never finishes still ends the program.
pub proof fn lemma_gives_up(shot: Screenshot, scanning: bool, has_tree: bool)
    requires
        shot.waited == SHOT_MAX_FRAMES,
    ensures
        shot_step(shot, false, scanning, has_tree).0 is GiveUp,
{
}

} // verus!
