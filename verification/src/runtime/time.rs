//! Frame timing: the duration of each frame, the time since the first frame and the
//! frame rate. Instants are nanoseconds on the caller's monotonic clock.

use vstd::prelude::*;

verus! {

/// One second, in nanoseconds.
pub const ONE_SECOND_NANOS: u64 = 1_000_000_000;

/// The frame rate the application aims for.
#[derive(Clone, Copy, Debug, PartialEq, Eq, Structural)]
pub enum TargetFrameRate {
    Limited(u32),
    UnlimitedOrVsync,
}

/// Frame timing state.
#[derive(Debug, Clone)]
pub struct Time {
    /// Target frame rate
    target_frame_rate: TargetFrameRate,
    /// Instant of the first frame
    first_frame_instant: u64,
    /// Instant at which begin_frame() was last called
    last_frame_instant: u64,
    /// Instant of the last second
    last_second_instant: u64,
    /// Duration of the previous frame
    delta: u64,
    /// Number of frames so far in this second
    frames_this_second: u32,
    /// Number of frames in the last second
    frames_last_second: u32,
}

impl Time {
    /// Instants are in order: the first frame, then the last second's start and the
    /// last frame's start.
    pub closed spec fn wf(&self) -> bool {
        &&& self.first_frame_instant <= self.last_frame_instant
        &&& self.first_frame_instant <= self.last_second_instant
    }

    /// The target frame rate.
    pub closed spec fn target_spec(&self) -> TargetFrameRate {
        self.target_frame_rate
    }

    /// Instant of the first frame.
    pub closed spec fn first_frame_spec(&self) -> u64 {
        self.first_frame_instant
    }

    /// Instant at which the current frame began.
    pub closed spec fn last_frame_spec(&self) -> u64 {
        self.last_frame_instant
    }

    /// Instant at which the current second of the frame counter began.
    pub closed spec fn last_second_spec(&self) -> u64 {
        self.last_second_instant
    }

    /// Duration of the previous frame.
    pub closed spec fn delta_spec(&self) -> u64 {
        self.delta
    }

    /// Frames counted in the current second.
    pub closed spec fn frames_this_second_spec(&self) -> u32 {
        self.frames_this_second
    }

    /// Frames counted in the previous second.
    pub closed spec fn frames_last_second_spec(&self) -> u32 {
        self.frames_last_second
    }

    /// Timing starting at instant `now`.
    pub fn new(target_frame_rate: TargetFrameRate, now: u64) -> (r: Self)
        ensures
            r.wf(),
            r.target_spec() == target_frame_rate,
            r.first_frame_spec() == now,
            r.last_frame_spec() == now,
            r.last_second_spec() == now,
            r.delta_spec() == 0,
            r.frames_this_second_spec() == 0,
            r.frames_last_second_spec() == 0,
    {
        Self {
            target_frame_rate,
            first_frame_instant: now,
            last_frame_instant: now,
            last_second_instant: now,
            delta: 0,
            frames_this_second: 0,
            frames_last_second: 0,
        }
    }

    /// This function is called at the beginning of each frame, at instant `now`
    pub fn begin_frame(&mut self, now: u64)
        requires
            old(self).wf(),
            now >= old(self).last_frame_spec(),
        ensures
            final(self).wf(),
            final(self).delta_spec() == now - old(self).last_frame_spec(),
            final(self).last_frame_spec() == now,
            final(self).first_frame_spec() == old(self).first_frame_spec(),
            final(self).last_second_spec() == old(self).last_second_spec(),
            final(self).frames_this_second_spec() == old(self).frames_this_second_spec(),
            final(self).frames_last_second_spec() == old(self).frames_last_second_spec(),
            final(self).target_spec() == old(self).target_spec(),
    {
        // update delta
        self.delta = now - self.last_frame_instant;

        // update last frame instant
        self.last_frame_instant = now;
    }

    /// This function is called at the end of each frame, at instant `now`, to increment the
    /// frame counter; once a second has passed since the counter's second began, the count
    /// becomes the frame rate and a new second begins
    pub fn update_frame_count(&mut self, now: u64)
        requires
            old(self).wf(),
            now >= old(self).last_second_spec(),
            old(self).frames_this_second_spec() < u32::MAX,
        ensures
            final(self).wf(),
            final(self).first_frame_spec() == old(self).first_frame_spec(),
            final(self).last_frame_spec() == old(self).last_frame_spec(),
            final(self).delta_spec() == old(self).delta_spec(),
            final(self).target_spec() == old(self).target_spec(),
            if now - old(self).last_second_spec() >= ONE_SECOND_NANOS {
                &&& final(self).last_second_spec() == now
                &&& final(self).frames_last_second_spec() == old(self).frames_this_second_spec() + 1
                &&& final(self).frames_this_second_spec() == 0
            } else {
                &&& final(self).last_second_spec() == old(self).last_second_spec()
                &&& final(self).frames_last_second_spec() == old(self).frames_last_second_spec()
                &&& final(self).frames_this_second_spec() == old(self).frames_this_second_spec() + 1
            },
    {
        self.frames_this_second = self.frames_this_second + 1;

        // update frames per second/fixed updates per second timers
        if now - self.last_second_instant >= ONE_SECOND_NANOS {
            self.last_second_instant = now;
            self.frames_last_second = self.frames_this_second;
            self.frames_this_second = 0;
        }
    }

    /// The duration of the previous frame, in nanoseconds
    pub fn delta(&self) -> (r: u64)
        ensures
            r == self.delta_spec(),
    {
        self.delta
    }

    /// The duration the program has been running, in nanoseconds: from the first frame to
    /// the beginning of the current one
    pub fn elapsed(&self) -> (r: u64)
        requires
            self.wf(),
        ensures
            r == self.last_frame_spec() - self.first_frame_spec(),
    {
        self.last_frame_instant - self.first_frame_instant
    }

    /// The number of frames in the previous second
    pub fn get_frames_last_second(&self) -> (r: u32)
        ensures
            r == self.frames_last_second_spec(),
    {
        self.frames_last_second
    }

    /// The number of frames counted so far in the current second
    pub fn frames_this_second(&self) -> (r: u32)
        ensures
            r == self.frames_this_second_spec(),
    {
        self.frames_this_second
    }

    /// The target frame rate
    pub fn target_frame_rate(&self) -> (r: TargetFrameRate)
        ensures
            r == self.target_spec(),
    {
        self.target_frame_rate
    }

    /// Instant at which the current frame began
    pub fn last_frame_instant(&self) -> (r: u64)
        ensures
            r == self.last_frame_spec(),
    {
        self.last_frame_instant
    }
}

/// Frame durations add up: after beginning frames at instants `t1` and then `t2`, the
/// time elapsed since the first frame grows by exactly the second frame's delta.
pub proof fn lemma_elapsed_accumulates(a: Time, b: Time, c: Time, t1: u64, t2: u64)
    requires
        a.wf(),
        b.wf(),
        c.wf(),
        b.last_frame_spec() == t1,
        b.first_frame_spec() == a.first_frame_spec(),
        c.last_frame_spec() == t2,
        c.first_frame_spec() == b.first_frame_spec(),
        c.delta_spec() == t2 - t1,
        t1 <= t2,
    ensures
        c.last_frame_spec() - c.first_frame_spec() == (b.last_frame_spec() - b.first_frame_spec()) + c.delta_spec(),
{
}

} // verus!
