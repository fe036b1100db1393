use vstd::prelude::*;
use crate::cell::Pos;

verus! {

/// A chunk that went this many frames without stepping is stepped anyway.
pub const MAX_IDLE_FRAMES: u8 = 200;

/// A square block of the grid that is simulated only while active.
#[derive(Clone, Copy, Debug, PartialEq, Eq, Structural)]
pub struct Chunk {
    pub should_step: bool,
    pub should_step_next_frame: bool,
    pub topleft: Pos,
    pub size: usize,
    pub num_frames_without_step: u8,
}

/// The state of a chunk after `start_step`.
pub open spec fn started(c: Chunk) -> Chunk {
    if c.should_step_next_frame {
        Chunk { should_step: true, should_step_next_frame: false, ..c }
    } else if c.num_frames_without_step + 1 >= MAX_IDLE_FRAMES {
        Chunk { should_step: true, should_step_next_frame: false, num_frames_without_step: 0, ..c }
    } else {
        Chunk {
            should_step: false,
            should_step_next_frame: false,
            num_frames_without_step: (c.num_frames_without_step + 1) as u8,
            ..c
        }
    }
}

impl Chunk {
    /// A new chunk, requested to step in the first frame.
    pub fn new(topleft: Pos, size: usize) -> (r: Self)
        ensures
            r.topleft == topleft,
            r.size == size,
            !r.should_step,
            r.should_step_next_frame,
            r.num_frames_without_step == 0,
    {
        Chunk {
            should_step: false,
            should_step_next_frame: true,
            topleft,
            size,
            num_frames_without_step: 0,
        }
    }

    /// Begins a frame: the request for this frame becomes the step flag, and
    /// the request is cleared.
    pub fn start_step(&mut self)
        requires
            old(self).num_frames_without_step < MAX_IDLE_FRAMES,
        ensures
            *final(self) == started(*old(self)),
            final(self).num_frames_without_step < MAX_IDLE_FRAMES,
    {
        self.should_step = self.should_step_next_frame;
        if !self.should_step {
            self.num_frames_without_step += 1;
            if self.num_frames_without_step >= MAX_IDLE_FRAMES {
                self.should_step = true;
                self.num_frames_without_step = 0;
            }
        }
        self.should_step_next_frame = false;
    }
}

} // verus!
