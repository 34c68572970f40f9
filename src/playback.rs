use vstd::prelude::*;

verus! {

/// Frames shown per second when a stream is played.
pub const DEFAULT_FPS: u16 = 15;

/// Leading frames skipped while audio output starts up.
pub const WARMUP_FRAMES: usize = 15;

/// Where a playback session stands.
#[derive(Debug, Clone, Copy, PartialEq, Eq, Structural)]
pub enum Phase {
    /// Nothing has happened yet.
    Idle,
    /// Audio, if any, has been started; frames come next.
    Priming,
    /// Frame `next` is the next to show; `shown` tells whether a frame is on
    /// screen whose interval has not yet been seen to pass.
    Playing { next: usize, shown: bool },
    /// Every frame has been shown for its full interval.
    Done,
}

/// What the player is to do next.
#[derive(Debug, Clone, Copy, PartialEq, Eq, Structural)]
pub enum Action {
    /// Hand the audio buffer to the audio output, once.
    StartAudio,
    /// Nothing to do; ask again.
    Proceed,
    /// Move the cursor home, write this frame and flush.
    Show { frame: usize },
    /// The current frame's interval is still running; ask again later.
    Wait,
    /// Playback is over.
    Stop,
}

/// The fixed settings of one playback session.
#[derive(Debug, Clone, Copy, PartialEq, Eq, Structural)]
pub struct Schedule {
    pub fps: u16,
    pub frame_count: usize,
    pub skip: usize,
    pub has_audio: bool,
}

/// Whether `elapsed_ms` milliseconds cover one frame interval of `1000 / fps`
/// milliseconds. At 0 frames per second the interval never passes.
pub open spec fn interval_elapsed(elapsed_ms: u64, fps: u16) -> bool {
    elapsed_ms * fps >= 1000
}

/// One transition of a session: `elapsed_ms` is the time since the last
/// frame was shown.
pub open spec fn next_step(s: Schedule, p: Phase, elapsed_ms: u64) -> (Phase, Action) {
    match p {
        Phase::Idle => if s.has_audio {
            (Phase::Priming, Action::StartAudio)
        } else {
            (Phase::Priming, Action::Proceed)
        },
        Phase::Priming => (Phase::Playing { next: s.skip, shown: false }, Action::Proceed),
        Phase::Playing { next, shown } => if shown && !interval_elapsed(elapsed_ms, s.fps) {
            (p, Action::Wait)
        } else if next < s.frame_count {
            (Phase::Playing { next: (next + 1) as usize, shown: true }, Action::Show { frame: next })
        } else {
            (Phase::Done, Action::Stop)
        },
        Phase::Done => (Phase::Done, Action::Stop),
    }
}

impl Schedule {
    /// The session for a stream of `frame_count` frames at the default rate,
    /// skipping the warm-up frames.
    pub fn new(frame_count: usize, has_audio: bool) -> (r: Schedule)
        ensures
            r.fps == DEFAULT_FPS,
            r.frame_count == frame_count,
            r.skip == WARMUP_FRAMES,
            r.has_audio == has_audio,
    {
        Schedule { fps: DEFAULT_FPS, frame_count, skip: WARMUP_FRAMES, has_audio }
    }
}

/// Whether the interval of a frame shown `elapsed_ms` milliseconds ago has
/// passed.
pub fn frame_interval_elapsed(elapsed_ms: u64, fps: u16) -> (r: bool)
    ensures
        r == interval_elapsed(elapsed_ms, fps),
{
    let e = elapsed_ms as u128;
    let f = fps as u128;
    assert(e * f <= 0xffff_ffff_ffff_ffff * 0xffff) by (nonlinear_arith)
        requires
            e <= 0xffff_ffff_ffff_ffff,
            f <= 0xffff,
    ;
    e * f >= 1000
}

/// Decides the next action of a session and the phase that follows it.
pub fn step(s: &Schedule, p: Phase, elapsed_ms: u64) -> (r: (Phase, Action))
    ensures
        r == next_step(*s, p, elapsed_ms),
{
    match p {
        Phase::Idle => if s.has_audio {
            (Phase::Priming, Action::StartAudio)
        } else {
            (Phase::Priming, Action::Proceed)
        },
        Phase::Priming => (Phase::Playing { next: s.skip, shown: false }, Action::Proceed),
        Phase::Playing { next, shown } => {
            if shown && !frame_interval_elapsed(elapsed_ms, s.fps) {
                (p, Action::Wait)
            } else if next < s.frame_count {
                (Phase::Playing { next: next + 1, shown: true }, Action::Show { frame: next })
            } else {
                (Phase::Done, Action::Stop)
            }
        },
        Phase::Done => (Phase::Done, Action::Stop),
    }
}

/// Pacing: after a frame is shown, waiting leaves the phase as it is, and
/// the next frame (the following one in the stream) or the end comes only
/// once at least `1000 / fps` milliseconds have passed since that frame.
pub proof fn lemma_frames_paced(s: Schedule, start: Phase, e0: u64, e1: u64, i: usize)
    requires
        next_step(s, start, e0).1 == (Action::Show { frame: i }),
    ensures
        ({
            let on_screen = next_step(s, start, e0).0;
            let (after, a) = next_step(s, on_screen, e1);
            &&& a is Wait ==> after == on_screen && !interval_elapsed(e1, s.fps)
            &&& a is Show ==> interval_elapsed(e1, s.fps) && a == (Action::Show { frame: (i + 1) as usize })
            &&& a is Stop ==> interval_elapsed(e1, s.fps) && i + 1 == s.frame_count
            &&& interval_elapsed(e1, s.fps) ==> e1 * s.fps >= 1000
        }),
{
}

/// Without waits, a session started at `Priming` shows frames `skip`,
/// `skip + 1`, ... in order.
pub proof fn lemma_frames_in_order(s: Schedule, next: usize, e: u64)
    requires
        next < s.frame_count,
    ensures
        next_step(s, Phase::Playing { next, shown: false }, e) == (
        Phase::Playing { next: (next + 1) as usize, shown: true },
        Action::Show { frame: next },
        ),
        next_step(s, Phase::Priming, e).0 == (Phase::Playing { next: s.skip, shown: false }),
{
}

} // verus!
