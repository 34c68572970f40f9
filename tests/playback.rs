use ascii_video::playback::{frame_interval_elapsed, step, Action, Phase, Schedule, DEFAULT_FPS, WARMUP_FRAMES};

#[test]
fn interval_is_one_thousand_over_fps_milliseconds() {
    assert!(!frame_interval_elapsed(66, 15));
    assert!(frame_interval_elapsed(67, 15));
    assert!(frame_interval_elapsed(40, 25));
    assert!(!frame_interval_elapsed(39, 25));
    assert!(!frame_interval_elapsed(u64::MAX, 0));
}

#[test]
fn default_schedule_skips_warmup_frames() {
    let s = Schedule::new(20, false);
    assert_eq!(s.fps, DEFAULT_FPS);
    assert_eq!(s.skip, WARMUP_FRAMES);
    assert_eq!(s.frame_count, 20);
    assert!(!s.has_audio);
}

#[test]
fn session_starts_audio_then_paces_frames() {
    let s = Schedule { fps: 15, frame_count: 3, skip: 0, has_audio: true };
    let (p, a) = step(&s, Phase::Idle, 0);
    assert_eq!(a, Action::StartAudio);
    let (p, a) = step(&s, p, 0);
    assert_eq!(a, Action::Proceed);
    assert_eq!(p, Phase::Playing { next: 0, shown: false });
    let (p, a) = step(&s, p, 0);
    assert_eq!(a, Action::Show { frame: 0 });
    let (p, a) = step(&s, p, 10);
    assert_eq!(a, Action::Wait);
    let (p, a) = step(&s, p, 66);
    assert_eq!(a, Action::Wait);
    let (p, a) = step(&s, p, 67);
    assert_eq!(a, Action::Show { frame: 1 });
    let (p, a) = step(&s, p, 100);
    assert_eq!(a, Action::Show { frame: 2 });
    let (p, a) = step(&s, p, 5);
    assert_eq!(a, Action::Wait);
    let (p, a) = step(&s, p, 70);
    assert_eq!(a, Action::Stop);
    assert_eq!(p, Phase::Done);
    assert_eq!(step(&s, p, 0), (Phase::Done, Action::Stop));
}

#[test]
fn session_without_audio_skips_leading_frames() {
    let s = Schedule { fps: 10, frame_count: 4, skip: 2, has_audio: false };
    let (p, a) = step(&s, Phase::Idle, 0);
    assert_eq!(a, Action::Proceed);
    let (p, _) = step(&s, p, 0);
    let (p, a) = step(&s, p, 0);
    assert_eq!(a, Action::Show { frame: 2 });
    let (p, a) = step(&s, p, 100);
    assert_eq!(a, Action::Show { frame: 3 });
    let (_, a) = step(&s, p, 100);
    assert_eq!(a, Action::Stop);
}

#[test]
fn session_with_fewer_frames_than_skip_stops_at_once() {
    let s = Schedule::new(3, false);
    let (p, _) = step(&s, Phase::Idle, 0);
    let (p, _) = step(&s, p, 0);
    assert_eq!(step(&s, p, 0), (Phase::Done, Action::Stop));
}
