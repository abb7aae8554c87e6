use sapience::marks::{DrainSnapshot, MarkQueue};
use sapience::pacing::{
    chunk_bytes, event_bit, pack_bitfield, wants_timed_events, PaceAction, PaceEvent, PaceMode,
    PaceOutcome, PacePhase, Pacer, SPEI_TTS_BOOKMARK, SPEI_VISEME, SPEI_WORD_BOUNDARY,
    SPET_LPARAM_IS_STRING, SPVES_ABORT, SPVES_SKIP,
};
use sapience::ssml::ParsedMark;

#[test]
fn chunk_bytes_at_22050_hz_16bit_mono() {
    // 22050 Hz * 2 B/sample * 0.05 s = 2205 B
    assert_eq!(chunk_bytes(), 2205);
}

#[test]
fn wants_timed_events_for_word_boundary_and_bookmark_only() {
    assert!(wants_timed_events(event_bit(SPEI_WORD_BOUNDARY)));
    assert!(wants_timed_events(event_bit(SPEI_TTS_BOOKMARK)));
    assert!(wants_timed_events(
        event_bit(SPEI_WORD_BOUNDARY) | event_bit(SPEI_TTS_BOOKMARK)
    ));
    // No interest, or interest in events we cannot produce, selects poll path.
    assert!(!wants_timed_events(0));
    assert!(!wants_timed_events(event_bit(SPEI_VISEME)));
}

#[test]
fn event_bits_and_bitfields() {
    assert_eq!(event_bit(SPEI_WORD_BOUNDARY), 32);
    assert_eq!(event_bit(SPEI_TTS_BOOKMARK), 16);
    assert_eq!(event_bit(63), 1u64 << 63);
    assert_eq!(pack_bitfield(SPEI_WORD_BOUNDARY, 0), 5);
    assert_eq!(pack_bitfield(SPEI_TTS_BOOKMARK, SPET_LPARAM_IS_STRING), 4 | (4 << 16));
    assert_eq!(pack_bitfield(-1, -1), 0x00FF_FFFF);
}

fn snapshot(words: Vec<u32>, bookmarks: Vec<&str>, end_reached: bool) -> DrainSnapshot {
    DrainSnapshot {
        words,
        bookmarks: bookmarks.into_iter().map(|s| s.to_string()).collect(),
        end_reached,
    }
}

/// Runs a pacer, answering each action from the given script, and records
/// the actions taken.
fn run(mode: PaceMode, interest: u64, mut answer: impl FnMut(&PaceAction) -> PaceEvent) -> (Pacer, Vec<String>, PaceOutcome) {
    let (mut p, mut a) = Pacer::start(mode, interest, 0);
    let mut log = Vec::new();
    for _ in 0..1000 {
        let tag = match &a {
            PaceAction::WriteChunk => "write".to_string(),
            PaceAction::GetActions => "actions".to_string(),
            PaceAction::GetSkipInfo => "skipinfo".to_string(),
            PaceAction::CancelSpeech => "cancel".to_string(),
            PaceAction::Drain => "drain".to_string(),
            PaceAction::WaitDrain => "waitdrain".to_string(),
            PaceAction::Fire { audio_offset, words, bookmarks } => {
                format!("fire@{audio_offset}:{words:?}:{bookmarks:?}")
            }
            PaceAction::LoadSpeechEnded => "ended?".to_string(),
            PaceAction::CheckElapsed => "cap?".to_string(),
            PaceAction::Finish(o) => {
                log.push("finish".to_string());
                return (p, log, *o);
            }
        };
        log.push(tag);
        let e = match &a {
            PaceAction::CancelSpeech => PaceEvent::Cancelled,
            _ => answer(&a),
        };
        a = p.step(e);
    }
    panic!("pacer did not finish");
}

#[test]
fn poll_path_writes_no_pcm_and_fires_no_events_on_speech_ended() {
    let (_, log, outcome) = run(PaceMode::Untimed, 0, |a| match a {
        PaceAction::GetActions => PaceEvent::Actions(0),
        PaceAction::WaitDrain => PaceEvent::Drained(snapshot(vec![], vec![], false)),
        PaceAction::LoadSpeechEnded => PaceEvent::SpeechEnded(true),
        _ => panic!("unexpected action"),
    });
    assert!(matches!(outcome, PaceOutcome::Completed));
    assert!(!log.iter().any(|t| t == "write"), "poll path must not write PCM");
    assert!(!log.iter().any(|t| t.starts_with("fire")), "poll path must not fire events");
}

#[test]
fn poll_path_aborts_on_action_without_writing() {
    let (_, log, outcome) = run(PaceMode::Untimed, 0, |a| match a {
        PaceAction::GetActions => PaceEvent::Actions(SPVES_ABORT),
        _ => panic!("unexpected action"),
    });
    assert!(matches!(outcome, PaceOutcome::Aborted));
    assert!(!log.iter().any(|t| t == "write"));
    assert_eq!(log, vec!["actions", "cancel", "finish"]);
}

#[test]
fn poll_path_safety_caps_when_nothing_signals() {
    let mut turns = 0;
    let (_, log, outcome) = run(PaceMode::Untimed, 0, |a| match a {
        PaceAction::GetActions => PaceEvent::Actions(0),
        PaceAction::WaitDrain => PaceEvent::Drained(snapshot(vec![], vec![], false)),
        PaceAction::LoadSpeechEnded => PaceEvent::SpeechEnded(false),
        PaceAction::CheckElapsed => {
            turns += 1;
            PaceEvent::CapReached(turns == 3)
        }
        _ => panic!("unexpected action"),
    });
    assert!(matches!(outcome, PaceOutcome::SafetyCapped));
    assert!(!log.iter().any(|t| t == "write"));
}

#[test]
fn timed_path_fires_marks_at_the_written_offset() {
    let interest = event_bit(SPEI_WORD_BOUNDARY) | event_bit(SPEI_TTS_BOOKMARK);
    let mut drains = 0;
    let (p, log, outcome) = run(PaceMode::Timed, interest, |a| match a {
        PaceAction::WriteChunk => PaceEvent::Wrote(Some(2205)),
        PaceAction::GetActions => PaceEvent::Actions(0),
        PaceAction::Drain => {
            drains += 1;
            if drains == 1 {
                PaceEvent::Drained(snapshot(vec![0, 1], vec!["b"], false))
            } else {
                PaceEvent::Drained(snapshot(vec![2], vec![], true))
            }
        }
        PaceAction::Fire { .. } => PaceEvent::Fired,
        PaceAction::LoadSpeechEnded => PaceEvent::SpeechEnded(false),
        PaceAction::CheckElapsed => PaceEvent::CapReached(false),
        _ => panic!("unexpected action"),
    });
    assert!(matches!(outcome, PaceOutcome::Completed));
    assert_eq!(p.audio_offset, 4410);
    assert_eq!(p.phase, PacePhase::Done);
    assert_eq!(
        log,
        vec![
            "write", "actions", "drain", "fire@2205:[0, 1]:[\"b\"]", "ended?", "cap?",
            "write", "actions", "drain", "fire@4410:[2]:[]", "finish",
        ]
    );
}

#[test]
fn timed_path_fires_only_what_the_client_wants() {
    let interest = event_bit(SPEI_TTS_BOOKMARK);
    let (_, log, _) = run(PaceMode::Timed, interest, |a| match a {
        PaceAction::WriteChunk => PaceEvent::Wrote(Some(10)),
        PaceAction::GetActions => PaceEvent::Actions(0),
        PaceAction::Drain => PaceEvent::Drained(snapshot(vec![0, 1], vec!["b"], true)),
        PaceAction::Fire { .. } => PaceEvent::Fired,
        _ => panic!("unexpected action"),
    });
    assert!(log.contains(&"fire@10:[]:[\"b\"]".to_string()));
}

#[test]
fn timed_path_completes_when_a_write_fails() {
    let (p, _, outcome) = run(PaceMode::Timed, 0, |a| match a {
        PaceAction::WriteChunk => PaceEvent::Wrote(None),
        _ => panic!("unexpected action"),
    });
    assert!(matches!(outcome, PaceOutcome::Completed));
    assert_eq!(p.audio_offset, 0);
}

#[test]
fn skip_is_reported_with_its_count_and_type() {
    let (_, log, outcome) = run(PaceMode::Timed, 0, |a| match a {
        PaceAction::WriteChunk => PaceEvent::Wrote(Some(1)),
        PaceAction::GetActions => PaceEvent::Actions(SPVES_SKIP),
        PaceAction::GetSkipInfo => PaceEvent::SkipInfo(Some((1, 3))),
        _ => panic!("unexpected action"),
    });
    assert_eq!(outcome, PaceOutcome::Skip { count: 3, skip_type: 1 });
    assert!(log.ends_with(&["skipinfo".to_string(), "cancel".to_string(), "finish".to_string()]));
}

#[test]
fn failed_skip_query_keeps_pacing() {
    let (_, log, outcome) = run(PaceMode::Untimed, 0, |a| match a {
        PaceAction::GetActions => PaceEvent::Actions(SPVES_SKIP),
        PaceAction::GetSkipInfo => PaceEvent::SkipInfo(None),
        PaceAction::WaitDrain => PaceEvent::Drained(snapshot(vec![4], vec![], true)),
        _ => panic!("unexpected action"),
    });
    assert_eq!(outcome, PaceOutcome::Completed);
    assert_eq!(log, vec!["actions", "skipinfo", "waitdrain", "finish"]);
}

#[test]
fn abort_wins_over_skip() {
    let (_, log, outcome) = run(PaceMode::Timed, 0, |a| match a {
        PaceAction::WriteChunk => PaceEvent::Wrote(Some(1)),
        PaceAction::GetActions => PaceEvent::Actions(SPVES_ABORT | SPVES_SKIP),
        _ => panic!("unexpected action"),
    });
    assert_eq!(outcome, PaceOutcome::Aborted);
    // One write, then NVDA is told to stop before the loop ends.
    assert_eq!(log, vec!["write", "actions", "cancel", "finish"]);
}

#[test]
fn finished_pacer_stays_finished() {
    let (mut p, a) = Pacer::start(PaceMode::Untimed, 0, 5);
    assert!(matches!(a, PaceAction::GetActions));
    assert!(matches!(p.step(PaceEvent::Actions(SPVES_ABORT)), PaceAction::CancelSpeech));
    assert!(matches!(p.step(PaceEvent::Cancelled), PaceAction::Finish(PaceOutcome::Aborted)));
    assert!(matches!(p.step(PaceEvent::Fired), PaceAction::Finish(PaceOutcome::Aborted)));
    assert_eq!(p.audio_offset, 5);
}

#[test]
fn wait_drain_times_out_to_empty_snapshot() {
    let mut q = MarkQueue::new();
    assert!(!q.has_news());
    let snap = q.drain();
    assert!(snap.words.is_empty());
    assert!(snap.bookmarks.is_empty());
    assert!(!snap.end_reached);
}

#[test]
fn wait_drain_returns_queued_marks() {
    let mut q = MarkQueue::default();
    q.record(ParsedMark::Word { utt: 1, idx: 3 });
    q.record(ParsedMark::End { utt: 1 });
    assert!(q.has_news());
    let snap = q.drain();
    assert_eq!(snap.words, vec![3]);
    assert!(snap.end_reached);
}
