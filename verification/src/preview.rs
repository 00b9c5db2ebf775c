//! Animation playback: which frame the preview shows as time passes.
use vstd::prelude::*;

use vstd::arithmetic::div_mod::{lemma_add_mod_noop, lemma_mod_pos_bound};
use std::time::Duration;
use std::time::Instant;

verus! {

#[verifier::external_type_specification]
#[verifier::external_body]
pub struct ExInstant(Instant);

/// `Instant::now`: a reading of the monotonic clock. Nothing is promised of
/// the value.
#[verifier::external_body]
fn instant_now() -> Instant {
    Instant::now()
}

/// `Instant::saturating_duration_since`: the time from `earlier` to `now`,
/// zero when `earlier` is later. Nothing is promised of the value here, as
/// `Instant` is opaque to the proofs.
#[verifier::external_body]
fn saturating_duration_since(now: &Instant, earlier: &Instant) -> Duration {
    now.saturating_duration_since(*earlier)
}

/// `Duration::as_millis`: whole milliseconds of a duration. Nothing is
/// promised of the value, as `Duration` is opaque to the proofs.
#[verifier::external_body]
fn duration_as_millis(d: &Duration) -> u128 {
    d.as_millis()
}

/// Playback state of the frame preview.
pub struct PreviewState {
    pub playing: bool,
    pub current_frame: usize,
    pub ms_per_frame: u64,
    pub last_tick: Instant,
    pub accumulator_ms: u64,
}

/// The accumulated milliseconds after `elapsed` more, held in a `u64` that
/// stops at its maximum.
pub open spec fn spec_accumulated(acc: u64, elapsed: u64) -> int {
    if acc + elapsed > u64::MAX {
        u64::MAX as int
    } else {
        acc + elapsed
    }
}

/// How many frames playback moves on when `elapsed` milliseconds pass.
pub open spec fn spec_steps(s: PreviewState, elapsed: u64) -> int {
    spec_accumulated(s.accumulator_ms, elapsed) / (s.ms_per_frame as int)
}

/// After `elapsed` milliseconds with `frame_count` frames: one frame per
/// full interval of `ms_per_frame`, wrapping after the last frame, with the
/// remainder kept for later. Each step is `(frame + 1) % frame_count` in
/// wrapping `usize` arithmetic, so a frame index of `usize::MAX` goes to 0
/// on its first step. The result is the new frame when playback moved,
/// `None` when it did not.
pub open spec fn spec_advance(s: PreviewState, frame_count: int, elapsed: u64) -> (
    usize,
    u64,
    Option<usize>,
) {
    let acc = spec_accumulated(s.accumulator_ms, elapsed);
    let k = acc / (s.ms_per_frame as int);
    let rest = (acc % (s.ms_per_frame as int)) as u64;
    if k > 0 {
        let f = if s.current_frame == usize::MAX {
            ((k - 1) % frame_count) as usize
        } else {
            ((s.current_frame + k) % frame_count) as usize
        };
        (f, rest, Some(f))
    } else {
        (s.current_frame, rest, None)
    }
}

impl PreviewState {
    /// Stopped at frame 0, 150 ms per frame, nothing accumulated, with the
    /// clock reading `now` as the last tick.
    pub fn new_at(now: Instant) -> (s: PreviewState)
        ensures
            !s.playing,
            s.current_frame == 0,
            s.ms_per_frame == 150,
            s.accumulator_ms == 0,
            s.last_tick == now,
    {
        PreviewState { playing: false, current_frame: 0, ms_per_frame: 150, last_tick: now, accumulator_ms: 0 }
    }

    /// Stopped at frame 0, 150 ms per frame, nothing accumulated, with the
    /// current clock reading as the last tick (see `new_at`).
    pub fn new() -> (s: PreviewState)
        ensures
            !s.playing,
            s.current_frame == 0,
            s.ms_per_frame == 150,
            s.accumulator_ms == 0,
    {
        Self::new_at(instant_now())
    }

    /// A tick at clock reading `now`, `elapsed` milliseconds after the last
    /// one: the reading becomes the last tick and playback moves on by
    /// `elapsed` (see `spec_advance`).
    pub fn tick_at(&mut self, frame_count: usize, now: Instant, elapsed: u64) -> (res: Option<usize>)
        requires
            frame_count > 0,
            old(self).ms_per_frame > 0,
        ensures
            (final(self).current_frame, final(self).accumulator_ms, res) == spec_advance(
                *old(self),
                frame_count as int,
                elapsed,
            ),
            final(self).last_tick == now,
            final(self).playing == old(self).playing,
            final(self).ms_per_frame == old(self).ms_per_frame,
    {
        self.last_tick = now;
        let ghost before = *self;
        let res = self.advance(frame_count, elapsed);
        assert(spec_advance(before, frame_count as int, elapsed) == spec_advance(
            *old(self),
            frame_count as int,
            elapsed,
        ));
        res
    }

    /// Moves playback on by `elapsed` milliseconds (see `spec_advance`).
    pub fn advance(&mut self, frame_count: usize, elapsed: u64) -> (res: Option<usize>)
        requires
            frame_count > 0,
            old(self).ms_per_frame > 0,
        ensures
            (final(self).current_frame, final(self).accumulator_ms, res) == spec_advance(
                *old(self),
                frame_count as int,
                elapsed,
            ),
            final(self).playing == old(self).playing,
            final(self).ms_per_frame == old(self).ms_per_frame,
            final(self).last_tick == old(self).last_tick,
    {
        let acc = self.accumulator_ms.saturating_add(elapsed);
        let k = acc / self.ms_per_frame;
        self.accumulator_ms = acc % self.ms_per_frame;
        if k > 0 && self.current_frame == usize::MAX {
            proof {
                lemma_mod_pos_bound(k - 1, frame_count as int);
            }
            self.current_frame = ((k - 1) % (frame_count as u64)) as usize;
            Some(self.current_frame)
        } else if k > 0 {
            let fc = frame_count as u64;
            let a = (self.current_frame % frame_count) as u64;
            let b = k % fc;
            let sum = if a >= fc - b {
                a - (fc - b)
            } else {
                a + b
            };
            proof {
                let c = self.current_frame as int;
                let n = frame_count as int;
                lemma_mod_pos_bound(c, n);
                lemma_mod_pos_bound(k as int, n);
                lemma_add_mod_noop(c, k as int, n);
                let s = (c % n) + (k as int % n);
                if s >= n {
                    assert((s - n) % n == s % n) by {
                        vstd::arithmetic::div_mod::lemma_mod_sub_multiples_vanish(s, n);
                    }
                    vstd::arithmetic::div_mod::lemma_small_mod((s - n) as nat, n as nat);
                } else {
                    vstd::arithmetic::div_mod::lemma_small_mod(s as nat, n as nat);
                }
            }
            self.current_frame = sum as usize;
            Some(self.current_frame)
        } else {
            None
        }
    }

    /// Reads the clock and moves playback on by the whole milliseconds since
    /// the last reading, then keeps the new reading in `last_tick` for the
    /// next tick (see `tick_at`, which states both for a given reading).
    /// While stopped, or without frames, nothing changes. The reading itself
    /// comes from the clock, so this contract does not say which it is.
    pub fn tick(&mut self, frame_count: usize) -> (res: Option<usize>)
        requires
            old(self).playing && frame_count > 0 ==> old(self).ms_per_frame > 0,
        ensures
            !old(self).playing || frame_count == 0 ==> res is None && *final(self) == *old(
                self,
            ),
            old(self).playing && frame_count > 0 ==> exists|elapsed: u64|
                (final(self).current_frame, final(self).accumulator_ms, res) == spec_advance(
                    *old(self),
                    frame_count as int,
                    elapsed,
                ),
            final(self).playing == old(self).playing,
            final(self).ms_per_frame == old(self).ms_per_frame,
    {
        if !self.playing || frame_count == 0 {
            return None;
        }
        let now = instant_now();
        let dt = saturating_duration_since(&now, &self.last_tick);
        let ms = #[verifier::truncate] (duration_as_millis(&dt) as u64);
        self.tick_at(frame_count, now, ms)
    }
}

/// Playback never shows a frame that does not exist: once it moves, the
/// frame is below the frame count.
pub proof fn lemma_advance_stays_in_range(s: PreviewState, frame_count: int, elapsed: u64)
    requires
        frame_count > 0,
        s.ms_per_frame > 0,
        s.current_frame < frame_count,
    ensures
        spec_advance(s, frame_count, elapsed).0 < frame_count,
        spec_advance(s, frame_count, elapsed).1 < s.ms_per_frame,
{
    let acc = spec_accumulated(s.accumulator_ms, elapsed);
    lemma_mod_pos_bound(acc, s.ms_per_frame as int);
    let k = acc / (s.ms_per_frame as int);
    if k > 0 {
        lemma_mod_pos_bound(s.current_frame + k, frame_count);
    }
}

/// Time is not lost: the milliseconds accumulated (unless the `u64` stops at
/// its maximum) are the frames moved on times the interval plus what is
/// kept.
pub proof fn lemma_advance_keeps_time(s: PreviewState, frame_count: int, elapsed: u64)
    requires
        frame_count > 0,
        s.ms_per_frame > 0,
    ensures
        spec_accumulated(s.accumulator_ms, elapsed) == spec_steps(s, elapsed) * (
        s.ms_per_frame as int) + spec_advance(s, frame_count, elapsed).1,
{
    let acc = spec_accumulated(s.accumulator_ms, elapsed);
    let m = s.ms_per_frame as int;
    vstd::arithmetic::div_mod::lemma_fundamental_div_mod(acc, m);
    lemma_mod_pos_bound(acc, m);
    assert(m * (acc / m) == (acc / m) * m) by (nonlinear_arith);
}

} // verus!
