//! Pacing decisions: the silent-PCM format, event interest, and the step
//! function that decides, after each thing the engine site reports, what to
//! do next while an utterance is spoken.
use vstd::prelude::*;

use crate::marks::{DrainSnapshot, MarksView, string_views};

verus! {

/// Sample rate of the advertised (silent) PCM format.
pub const SAMPLE_RATE_HZ: u32 = 22050;

/// 16-bit mono.
pub const BYTES_PER_SAMPLE: u32 = 2;

/// Length of one silent chunk, in milliseconds.
pub const CHUNK_MS: u64 = 50;

/// SAPI event id of a bookmark event (`SPEI_TTS_BOOKMARK`).
pub const SPEI_TTS_BOOKMARK: i32 = 4;

/// SAPI event id of a word-boundary event (`SPEI_WORD_BOUNDARY`).
pub const SPEI_WORD_BOUNDARY: i32 = 5;

/// SAPI event id of a viseme event (`SPEI_VISEME`), which SAPIence never produces.
pub const SPEI_VISEME: i32 = 8;

/// SAPI lParam type of an event whose lParam is a string (`SPET_LPARAM_IS_STRING`).
pub const SPET_LPARAM_IS_STRING: i32 = 4;

/// The `GetActions` bit that asks the engine to abort (`SPVES_ABORT`).
pub const SPVES_ABORT: u32 = 1;

/// The `GetActions` bit that asks the engine to skip (`SPVES_SKIP`).
pub const SPVES_SKIP: u32 = 2;

/// Bytes in one silent chunk: sample rate times sample size times chunk
/// length, in milliseconds, over 1000.
pub fn chunk_bytes() -> (n: usize)
    ensures
        n == (SAMPLE_RATE_HZ as int * BYTES_PER_SAMPLE as int * CHUNK_MS as int) / 1000,
{
    ((SAMPLE_RATE_HZ as u64 * BYTES_PER_SAMPLE as u64 * CHUNK_MS) / 1000) as usize
}

/// The interest-mask bit of event id `e`.
pub open spec fn spec_event_bit(e: i32) -> u64 {
    1u64 << (e as u64)
}

/// The interest-mask bit of event id `e`: `1 << e`.
pub fn event_bit(e: i32) -> (b: u64)
    requires
        0 <= e < 64,
    ensures
        b == spec_event_bit(e),
{
    1u64 << (e as u64)
}

/// Whether the mask `interest` holds the bit of event id `e`.
pub open spec fn interested(interest: u64, e: i32) -> bool {
    interest & spec_event_bit(e) != 0
}

/// True if the client subscribed to any timed event SAPIence can produce
/// from NVDA marks: word boundary or bookmark.
pub fn wants_timed_events(interest: u64) -> (b: bool)
    ensures
        b == (interested(interest, SPEI_WORD_BOUNDARY) || interested(
            interest,
            SPEI_TTS_BOOKMARK,
        )),
{
    let r = interest & (event_bit(SPEI_WORD_BOUNDARY) | event_bit(SPEI_TTS_BOOKMARK)) != 0;
    assert(r == (interest & (1u64 << 5u64) != 0 || interest & (1u64 << 4u64) != 0))
        by (bit_vector)
        requires
            r == (interest & ((1u64 << 5u64) | (1u64 << 4u64)) != 0),
    ;
    r
}

/// The `_bitfield` of a SAPI event: the event id in the low 16 bits and the
/// lParam type in the 8 bits above them.
pub open spec fn spec_pack_bitfield(event_id: i32, lparam_type: i32) -> i32 {
    (event_id & 0xFFFF) | ((lparam_type & 0xFF) << 16)
}

/// Packs an event id and an lParam type into a SAPI event's `_bitfield`.
pub fn pack_bitfield(event_id: i32, lparam_type: i32) -> (r: i32)
    ensures
        r == spec_pack_bitfield(event_id, lparam_type),
        r & 0xFFFF == event_id & 0xFFFF,
        (r >> 16) & 0xFF == lparam_type & 0xFF,
        r >> 24 == 0,
{
    let r = (event_id & 0xFFFF) | ((lparam_type & 0xFF) << 16);
    assert(r & 0xFFFF == event_id & 0xFFFF && (r >> 16) & 0xFF == lparam_type & 0xFF && r >> 24
        == 0) by (bit_vector)
        requires
            r == (event_id & 0xFFFF) | ((lparam_type & 0xFF) << 16),
    ;
    r
}

// ---------------------------------------------------------------------------
// The pacing step function
// ---------------------------------------------------------------------------

/// How a pacing loop ended.
#[derive(Debug, Clone, Copy, PartialEq, Eq)]
pub enum PaceOutcome {
    Completed,
    Aborted,
    Skip { count: i32, skip_type: i32 },
    SafetyCapped,
}

/// Which loop runs: the silent-PCM one, whose audio stream times word and
/// bookmark events, or the one that writes nothing and fires no events.
#[derive(Debug, Clone, Copy, PartialEq, Eq)]
pub enum PaceMode {
    Timed,
    Untimed,
}

/// What the loop is waiting for.
#[derive(Debug, Clone, Copy, PartialEq, Eq)]
pub enum PacePhase {
    Writing,
    PollingActions,
    QueryingSkip,
    Cancelling,
    Draining,
    Firing,
    CheckingEnded,
    CheckingCap,
    Done,
}

/// The state of a pacing loop.
#[derive(Debug, Clone, Copy)]
pub struct Pacer {
    pub mode: PaceMode,
    pub interest: u64,
    pub audio_offset: u64,
    pub phase: PacePhase,
    pub end_reached: bool,
    pub outcome: PaceOutcome,
}

/// What the engine site, the mark channel or the clock reported.
pub enum PaceEvent {
    /// `Write` returned the number of bytes written, or failed.
    Wrote(Option<u32>),
    /// `GetActions` returned this mask.
    Actions(u32),
    /// `GetSkipInfo` returned `(skip type, count)`, or failed.
    SkipInfo(Option<(i32, i32)>),
    /// NVDA was asked to stop speaking.
    Cancelled,
    /// The marks drained from the channel.
    Drained(DrainSnapshot),
    /// The events handed out were added.
    Fired,
    /// Whether the worker that drives NVDA has finished.
    SpeechEnded(bool),
    /// Whether the safety cap has elapsed.
    CapReached(bool),
}

/// What the loop does next.
pub enum PaceAction {
    /// Write one silent chunk.
    WriteChunk,
    /// Ask the site for pending actions.
    GetActions,
    /// Ask the site what to skip.
    GetSkipInfo,
    /// Ask NVDA to stop speaking the current utterance.
    CancelSpeech,
    /// Drain the mark channel without waiting.
    Drain,
    /// Wait for a mark (or a short while), then drain the mark channel.
    WaitDrain,
    /// Add a word-boundary event per word index and a bookmark event per
    /// name, all at this audio offset.
    Fire { audio_offset: u64, words: Vec<u32>, bookmarks: Vec<String> },
    /// Read whether the worker has finished.
    LoadSpeechEnded,
    /// Read whether the safety cap has elapsed.
    CheckElapsed,
    /// Stop with this outcome.
    Finish(PaceOutcome),
}

/// A pacing event with the drained marks as sequences.
pub ghost enum PaceEventView {
    Wrote(Option<u32>),
    Actions(u32),
    SkipInfo(Option<(i32, i32)>),
    Cancelled,
    Drained(MarksView),
    Fired,
    SpeechEnded(bool),
    CapReached(bool),
}

/// A pacing action with its events as sequences.
pub ghost enum PaceActionView {
    WriteChunk,
    GetActions,
    GetSkipInfo,
    CancelSpeech,
    Drain,
    WaitDrain,
    Fire { audio_offset: u64, words: Seq<u32>, bookmarks: Seq<Seq<char>> },
    LoadSpeechEnded,
    CheckElapsed,
    Finish(PaceOutcome),
}

impl View for PaceEvent {
    type V = PaceEventView;

    open spec fn view(&self) -> PaceEventView {
        match self {
            PaceEvent::Wrote(w) => PaceEventView::Wrote(*w),
            PaceEvent::Actions(a) => PaceEventView::Actions(*a),
            PaceEvent::SkipInfo(s) => PaceEventView::SkipInfo(*s),
            PaceEvent::Cancelled => PaceEventView::Cancelled,
            PaceEvent::Drained(snap) => PaceEventView::Drained(snap@),
            PaceEvent::Fired => PaceEventView::Fired,
            PaceEvent::SpeechEnded(b) => PaceEventView::SpeechEnded(*b),
            PaceEvent::CapReached(b) => PaceEventView::CapReached(*b),
        }
    }
}

impl View for PaceAction {
    type V = PaceActionView;

    open spec fn view(&self) -> PaceActionView {
        match self {
            PaceAction::WriteChunk => PaceActionView::WriteChunk,
            PaceAction::GetActions => PaceActionView::GetActions,
            PaceAction::GetSkipInfo => PaceActionView::GetSkipInfo,
            PaceAction::CancelSpeech => PaceActionView::CancelSpeech,
            PaceAction::Drain => PaceActionView::Drain,
            PaceAction::WaitDrain => PaceActionView::WaitDrain,
            PaceAction::Fire { audio_offset, words, bookmarks } => PaceActionView::Fire {
                audio_offset: *audio_offset,
                words: words@,
                bookmarks: string_views(bookmarks@),
            },
            PaceAction::LoadSpeechEnded => PaceActionView::LoadSpeechEnded,
            PaceAction::CheckElapsed => PaceActionView::CheckElapsed,
            PaceAction::Finish(o) => PaceActionView::Finish(*o),
        }
    }
}

/// The loop never waits to write or to fire events when it writes no PCM.
pub open spec fn pacer_wf(p: Pacer) -> bool {
    p.mode == PaceMode::Untimed ==> p.phase != PacePhase::Writing && p.phase != PacePhase::Firing
}

/// The event answers what the loop is waiting for.
pub open spec fn answers(phase: PacePhase, e: PaceEventView) -> bool {
    match phase {
        PacePhase::Writing => e is Wrote,
        PacePhase::PollingActions => e is Actions,
        PacePhase::QueryingSkip => e is SkipInfo,
        PacePhase::Cancelling => e is Cancelled,
        PacePhase::Draining => e is Drained,
        PacePhase::Firing => e is Fired,
        PacePhase::CheckingEnded => e is SpeechEnded,
        PacePhase::CheckingCap => e is CapReached,
        PacePhase::Done => true,
    }
}

/// Stop with outcome `o`.
pub open spec fn finish(p: Pacer, o: PaceOutcome) -> (Pacer, PaceActionView) {
    (Pacer { phase: PacePhase::Done, outcome: o, ..p }, PaceActionView::Finish(o))
}

/// Ask NVDA to stop speaking, then stop with outcome `o`.
pub open spec fn cancel(p: Pacer, o: PaceOutcome) -> (Pacer, PaceActionView) {
    (Pacer { phase: PacePhase::Cancelling, outcome: o, ..p }, PaceActionView::CancelSpeech)
}

/// Start a turn of the loop: write a chunk, or, with no PCM, poll actions.
pub open spec fn turn_start(p: Pacer) -> (Pacer, PaceActionView) {
    match p.mode {
        PaceMode::Timed => (Pacer { phase: PacePhase::Writing, ..p }, PaceActionView::WriteChunk),
        PaceMode::Untimed => (
            Pacer { phase: PacePhase::PollingActions, ..p },
            PaceActionView::GetActions,
        ),
    }
}

/// Fetch the marks: at once when writing PCM, after a short wait otherwise.
pub open spec fn drain_request(p: Pacer) -> (Pacer, PaceActionView) {
    (
        Pacer { phase: PacePhase::Draining, ..p },
        match p.mode {
            PaceMode::Timed => PaceActionView::Drain,
            PaceMode::Untimed => PaceActionView::WaitDrain,
        },
    )
}

/// Ask whether the worker has finished.
pub open spec fn ask_ended(p: Pacer) -> (Pacer, PaceActionView) {
    (Pacer { phase: PacePhase::CheckingEnded, ..p }, PaceActionView::LoadSpeechEnded)
}

/// The next state and action of the loop after event `e`.
pub open spec fn pace_next(p: Pacer, e: PaceEventView) -> (Pacer, PaceActionView) {
    match p.phase {
        PacePhase::Done => (p, PaceActionView::Finish(p.outcome)),
        PacePhase::Writing => match e {
            PaceEventView::Wrote(Some(w)) => (
                Pacer {
                    audio_offset: (p.audio_offset + w) as u64,
                    phase: PacePhase::PollingActions,
                    ..p
                },
                PaceActionView::GetActions,
            ),
            _ => finish(p, PaceOutcome::Completed),
        },
        PacePhase::PollingActions => match e {
            PaceEventView::Actions(a) => if a & SPVES_ABORT != 0 {
                cancel(p, PaceOutcome::Aborted)
            } else if a & SPVES_SKIP != 0 {
                (Pacer { phase: PacePhase::QueryingSkip, ..p }, PaceActionView::GetSkipInfo)
            } else {
                drain_request(p)
            },
            _ => (p, PaceActionView::GetActions),
        },
        PacePhase::QueryingSkip => match e {
            PaceEventView::SkipInfo(Some((t, n))) => cancel(
                p,
                PaceOutcome::Skip { count: n, skip_type: t },
            ),
            _ => drain_request(p),
        },
        PacePhase::Cancelling => finish(p, p.outcome),
        PacePhase::Draining => match e {
            PaceEventView::Drained(snap) => match p.mode {
                PaceMode::Timed => (
                    Pacer { phase: PacePhase::Firing, end_reached: snap.end_reached, ..p },
                    PaceActionView::Fire {
                        audio_offset: p.audio_offset,
                        words: if interested(p.interest, SPEI_WORD_BOUNDARY) {
                            snap.words
                        } else {
                            Seq::empty()
                        },
                        bookmarks: if interested(p.interest, SPEI_TTS_BOOKMARK) {
                            snap.bookmarks
                        } else {
                            Seq::empty()
                        },
                    },
                ),
                PaceMode::Untimed => if snap.end_reached {
                    finish(p, PaceOutcome::Completed)
                } else {
                    ask_ended(p)
                },
            },
            _ => drain_request(p),
        },
        PacePhase::Firing => if p.end_reached {
            finish(p, PaceOutcome::Completed)
        } else {
            ask_ended(p)
        },
        PacePhase::CheckingEnded => match e {
            PaceEventView::SpeechEnded(true) => finish(p, PaceOutcome::Completed),
            _ => (Pacer { phase: PacePhase::CheckingCap, ..p }, PaceActionView::CheckElapsed),
        },
        PacePhase::CheckingCap => match e {
            PaceEventView::CapReached(true) => finish(p, PaceOutcome::SafetyCapped),
            _ => turn_start(p),
        },
    }
}

impl Pacer {
    /// A pacing loop in `mode` for a client with event `interest`, its audio
    /// stream at `audio_offset`, and the first thing to do.
    pub fn start(mode: PaceMode, interest: u64, audio_offset: u64) -> (r: (Pacer, PaceAction))
        ensures
            r.0.mode == mode,
            r.0.interest == interest,
            r.0.audio_offset == audio_offset,
            pacer_wf(r.0),
            (r.0, r.1@) == turn_start(r.0),
    {
        let p = Pacer {
            mode,
            interest,
            audio_offset,
            phase: PacePhase::Done,
            end_reached: false,
            outcome: PaceOutcome::Completed,
        };
        match mode {
            PaceMode::Timed => (Pacer { phase: PacePhase::Writing, ..p }, PaceAction::WriteChunk),
            PaceMode::Untimed => (
                Pacer { phase: PacePhase::PollingActions, ..p },
                PaceAction::GetActions,
            ),
        }
    }

    fn finish_with(&mut self, o: PaceOutcome) -> (a: PaceAction)
        ensures
            (*final(self), a@) == finish(*old(self), o),
    {
        self.phase = PacePhase::Done;
        self.outcome = o;
        PaceAction::Finish(o)
    }

    fn cancel_with(&mut self, o: PaceOutcome) -> (a: PaceAction)
        ensures
            (*final(self), a@) == cancel(*old(self), o),
    {
        self.phase = PacePhase::Cancelling;
        self.outcome = o;
        PaceAction::CancelSpeech
    }

    fn request_drain(&mut self) -> (a: PaceAction)
        ensures
            (*final(self), a@) == drain_request(*old(self)),
    {
        self.phase = PacePhase::Draining;
        match self.mode {
            PaceMode::Timed => PaceAction::Drain,
            PaceMode::Untimed => PaceAction::WaitDrain,
        }
    }

    fn request_ended(&mut self) -> (a: PaceAction)
        ensures
            (*final(self), a@) == ask_ended(*old(self)),
    {
        self.phase = PacePhase::CheckingEnded;
        PaceAction::LoadSpeechEnded
    }

    /// Takes what the last action brought back and decides what to do next.
    pub fn step(&mut self, event: PaceEvent) -> (a: PaceAction)
        requires
            pacer_wf(*old(self)),
            answers(old(self).phase, event@),
            old(self).phase == PacePhase::Writing ==> match event@ {
                PaceEventView::Wrote(Some(w)) => old(self).audio_offset + w <= u64::MAX,
                _ => true,
            },
        ensures
            pacer_wf(*final(self)),
            (*final(self), a@) == pace_next(*old(self), event@),
            old(self).phase == PacePhase::CheckingEnded && event@ == PaceEventView::SpeechEnded(true)
                ==> a@ == PaceActionView::Finish(PaceOutcome::Completed) && final(self).phase
                == PacePhase::Done,
            old(self).phase == PacePhase::CheckingCap && event@ == PaceEventView::CapReached(true)
                ==> a@ == PaceActionView::Finish(PaceOutcome::SafetyCapped) && final(self).phase
                == PacePhase::Done,
    {
        match self.phase {
            PacePhase::Done => PaceAction::Finish(self.outcome),
            PacePhase::Writing => match event {
                PaceEvent::Wrote(Some(w)) => {
                    self.audio_offset = self.audio_offset + w as u64;
                    self.phase = PacePhase::PollingActions;
                    PaceAction::GetActions
                },
                _ => self.finish_with(PaceOutcome::Completed),
            },
            PacePhase::PollingActions => match event {
                PaceEvent::Actions(a) => {
                    if a & SPVES_ABORT != 0 {
                        self.cancel_with(PaceOutcome::Aborted)
                    } else if a & SPVES_SKIP != 0 {
                        self.phase = PacePhase::QueryingSkip;
                        PaceAction::GetSkipInfo
                    } else {
                        self.request_drain()
                    }
                },
                _ => PaceAction::GetActions,
            },
            PacePhase::QueryingSkip => match event {
                PaceEvent::SkipInfo(Some((t, n))) => self.cancel_with(
                    PaceOutcome::Skip { count: n, skip_type: t },
                ),
                _ => self.request_drain(),
            },
            PacePhase::Cancelling => {
                let o = self.outcome;
                self.finish_with(o)
            },
            PacePhase::Draining => match event {
                PaceEvent::Drained(snap) => match self.mode {
                    PaceMode::Timed => {
                        self.phase = PacePhase::Firing;
                        self.end_reached = snap.end_reached;
                        let words = if self.interest & event_bit(SPEI_WORD_BOUNDARY) != 0 {
                            snap.words
                        } else {
                            Vec::new()
                        };
                        let bookmarks = if self.interest & event_bit(SPEI_TTS_BOOKMARK) != 0 {
                            snap.bookmarks
                        } else {
                            let v: Vec<String> = Vec::new();
                            assert(string_views(v@) =~= Seq::<Seq<char>>::empty());
                            v
                        };
                        PaceAction::Fire { audio_offset: self.audio_offset, words, bookmarks }
                    },
                    PaceMode::Untimed => {
                        if snap.end_reached {
                            self.finish_with(PaceOutcome::Completed)
                        } else {
                            self.request_ended()
                        }
                    },
                },
                _ => self.request_drain(),
            },
            PacePhase::Firing => {
                if self.end_reached {
                    self.finish_with(PaceOutcome::Completed)
                } else {
                    self.request_ended()
                }
            },
            PacePhase::CheckingEnded => match event {
                PaceEvent::SpeechEnded(true) => self.finish_with(PaceOutcome::Completed),
                _ => {
                    self.phase = PacePhase::CheckingCap;
                    PaceAction::CheckElapsed
                },
            },
            PacePhase::CheckingCap => match event {
                PaceEvent::CapReached(true) => self.finish_with(PaceOutcome::SafetyCapped),
                _ => match self.mode {
                    PaceMode::Timed => {
                        self.phase = PacePhase::Writing;
                        PaceAction::WriteChunk
                    },
                    PaceMode::Untimed => {
                        self.phase = PacePhase::PollingActions;
                        PaceAction::GetActions
                    },
                },
            },
        }
    }
}

// ---------------------------------------------------------------------------
// What every run of the loop keeps
// ---------------------------------------------------------------------------

/// Without timed events the loop writes no PCM and fires no events: from a
/// well-formed state it never asks to write or to fire, and it stays
/// well-formed and without timed events.
pub proof fn lemma_untimed_writes_nothing(p: Pacer, e: PaceEventView)
    requires
        pacer_wf(p),
        p.mode == PaceMode::Untimed,
    ensures
        pacer_wf(pace_next(p, e).0),
        pace_next(p, e).0.mode == PaceMode::Untimed,
        !(pace_next(p, e).1 is WriteChunk),
        !(pace_next(p, e).1 is Fire),
        !(pace_next(p, e).1 is Drain),
{
}

/// Events are fired at the current audio offset, and only those the client
/// asked for: word boundaries only with word-boundary interest, bookmarks
/// only with bookmark interest.
pub proof fn lemma_fire_respects_interest(p: Pacer, e: PaceEventView)
    ensures
        pace_next(p, e).1 matches PaceActionView::Fire { audio_offset, words, bookmarks } ==> {
            &&& audio_offset == p.audio_offset
            &&& words.len() > 0 ==> interested(p.interest, SPEI_WORD_BOUNDARY)
            &&& bookmarks.len() > 0 ==> interested(p.interest, SPEI_TTS_BOOKMARK)
        },
{
}

/// An abort request, whatever else is asked, makes the loop ask NVDA to
/// stop speaking and then end as aborted.
pub proof fn lemma_abort_wins(p: Pacer, a: u32)
    requires
        p.phase == PacePhase::PollingActions,
        a & SPVES_ABORT != 0,
    ensures
        pace_next(p, PaceEventView::Actions(a)).1 == PaceActionView::CancelSpeech,
        pace_next(pace_next(p, PaceEventView::Actions(a)).0, PaceEventView::Cancelled).1
            == PaceActionView::Finish(PaceOutcome::Aborted),
{
}

/// A skip that SAPI describes makes the loop ask NVDA to stop speaking the
/// current utterance and then end with the skip's count and type.
pub proof fn lemma_skip_cancels(p: Pacer, t: i32, n: i32)
    requires
        p.phase == PacePhase::QueryingSkip,
    ensures
        pace_next(p, PaceEventView::SkipInfo(Some((t, n)))).1 == PaceActionView::CancelSpeech,
        pace_next(pace_next(p, PaceEventView::SkipInfo(Some((t, n)))).0, PaceEventView::Cancelled).1
            == PaceActionView::Finish(PaceOutcome::Skip { count: n, skip_type: t }),
{
}

/// The loop ends as aborted or skipped only right after asking NVDA to
/// stop speaking.
pub proof fn lemma_no_abort_without_cancel(p: Pacer, e: PaceEventView)
    requires
        p.phase != PacePhase::Done,
        pace_next(p, e).1 == PaceActionView::Finish(PaceOutcome::Aborted) || pace_next(p, e).1 is Finish
            && pace_next(p, e).1->Finish_0 is Skip,
    ensures
        p.phase == PacePhase::Cancelling,
{
}

/// The audio offset only moves forward, and only by what a write reported.
pub proof fn lemma_offset_counts_writes(p: Pacer, e: PaceEventView)
    requires
        p.phase == PacePhase::Writing ==> match e {
            PaceEventView::Wrote(Some(w)) => p.audio_offset + w <= u64::MAX,
            _ => true,
        },
    ensures
        pace_next(p, e).0.audio_offset == (match (p.phase, e) {
            (PacePhase::Writing, PaceEventView::Wrote(Some(w))) => p.audio_offset + w,
            _ => p.audio_offset as int,
        }),
{
}

/// Once finished, the loop stays finished with the same outcome.
pub proof fn lemma_done_is_final(p: Pacer, e: PaceEventView)
    requires
        p.phase == PacePhase::Done,
    ensures
        pace_next(p, e).0 == p,
        pace_next(p, e).1 == PaceActionView::Finish(p.outcome),
{
}

/// A cancellation the loop waits on is that of an abort or a skip.
pub open spec fn cancel_is_abort_or_skip(p: Pacer) -> bool {
    p.phase == PacePhase::Cancelling ==> (p.outcome is Aborted || p.outcome is Skip)
}

/// Once the worker that drives NVDA has exited, the loop stops and the
/// utterance is complete, with or without silent PCM.
pub proof fn lemma_speech_end_completes(p: Pacer)
    requires
        p.phase == PacePhase::CheckingEnded,
    ensures
        pace_next(p, PaceEventView::SpeechEnded(true)).1 == PaceActionView::Finish(
            PaceOutcome::Completed,
        ),
        pace_next(p, PaceEventView::SpeechEnded(true)).0.phase == PacePhase::Done,
        pace_next(p, PaceEventView::SpeechEnded(true)).0.outcome == PaceOutcome::Completed,
{
}

/// When the safety cap has elapsed the loop stops as capped, with or
/// without silent PCM.
pub proof fn lemma_cap_ends(p: Pacer)
    requires
        p.phase == PacePhase::CheckingCap,
    ensures
        pace_next(p, PaceEventView::CapReached(true)).1 == PaceActionView::Finish(
            PaceOutcome::SafetyCapped,
        ),
        pace_next(p, PaceEventView::CapReached(true)).0.phase == PacePhase::Done,
        pace_next(p, PaceEventView::CapReached(true)).0.outcome == PaceOutcome::SafetyCapped,
{
}

/// While the worker runs and the cap has not elapsed, the loop checks the
/// cap and then starts another turn: another chunk of silent PCM, or,
/// without it, another poll of the actions.
pub proof fn lemma_still_speaking_goes_on(p: Pacer)
    requires
        p.phase == PacePhase::CheckingEnded,
    ensures
        pace_next(p, PaceEventView::SpeechEnded(false)).1 == PaceActionView::CheckElapsed,
        pace_next(pace_next(p, PaceEventView::SpeechEnded(false)).0, PaceEventView::CapReached(false)).1
            == (match p.mode {
            PaceMode::Timed => PaceActionView::WriteChunk,
            PaceMode::Untimed => PaceActionView::GetActions,
        }),
{
}

/// The loop ends as capped only right after it found the cap elapsed
/// (from any state in which a pending cancellation is an abort or a skip).
pub proof fn lemma_capped_only_by_cap(p: Pacer, e: PaceEventView)
    requires
        p.phase != PacePhase::Done,
        cancel_is_abort_or_skip(p),
        pace_next(p, e).1 == PaceActionView::Finish(PaceOutcome::SafetyCapped),
    ensures
        p.phase == PacePhase::CheckingCap,
        e == PaceEventView::CapReached(true),
{
}


// ---------------------------------------------------------------------------
// Whole runs of the loop
// ---------------------------------------------------------------------------

/// A write that the offset can take.
pub open spec fn write_fits(p: Pacer, e: PaceEventView) -> bool {
    p.phase == PacePhase::Writing ==> match e {
        PaceEventView::Wrote(Some(w)) => p.audio_offset + w <= u64::MAX,
        _ => true,
    }
}

/// The events `es` drive the loop from `p`: each answers what the loop
/// waits for, none comes after it finished, and the offset takes each write.
pub open spec fn valid_run(p: Pacer, es: Seq<PaceEventView>) -> bool
    decreases es.len(),
{
    es.len() == 0 || (p.phase != PacePhase::Done && answers(p.phase, es[0]) && write_fits(p, es[0])
        && valid_run(pace_next(p, es[0]).0, es.drop_first()))
}

/// The state after the events `es`.
pub open spec fn run_end(p: Pacer, es: Seq<PaceEventView>) -> Pacer
    decreases es.len(),
{
    if es.len() == 0 {
        p
    } else {
        run_end(pace_next(p, es[0]).0, es.drop_first())
    }
}

/// The actions the loop takes after each of the events `es`.
pub open spec fn run_actions(p: Pacer, es: Seq<PaceEventView>) -> Seq<PaceActionView>
    decreases es.len(),
{
    if es.len() == 0 {
        Seq::empty()
    } else {
        seq![pace_next(p, es[0]).1] + run_actions(pace_next(p, es[0]).0, es.drop_first())
    }
}

/// The bytes that the writes among `es` reported.
pub open spec fn written(es: Seq<PaceEventView>) -> nat
    decreases es.len(),
{
    if es.len() == 0 {
        0
    } else {
        (match es[0] {
            PaceEventView::Wrote(Some(w)) => w as nat,
            _ => 0nat,
        }) + written(es.drop_first())
    }
}

/// The word indices of the drains among `es`, drain after drain.
pub open spec fn drained_words(es: Seq<PaceEventView>) -> Seq<u32>
    decreases es.len(),
{
    if es.len() == 0 {
        Seq::empty()
    } else {
        (match es[0] {
            PaceEventView::Drained(snap) => snap.words,
            _ => Seq::empty(),
        }) + drained_words(es.drop_first())
    }
}

/// The bookmark names of the drains among `es`, drain after drain.
pub open spec fn drained_bookmarks(es: Seq<PaceEventView>) -> Seq<Seq<char>>
    decreases es.len(),
{
    if es.len() == 0 {
        Seq::empty()
    } else {
        (match es[0] {
            PaceEventView::Drained(snap) => snap.bookmarks,
            _ => Seq::empty(),
        }) + drained_bookmarks(es.drop_first())
    }
}

/// The word-boundary events that the actions `acts` fire, in order.
pub open spec fn fired_words(acts: Seq<PaceActionView>) -> Seq<u32>
    decreases acts.len(),
{
    if acts.len() == 0 {
        Seq::empty()
    } else {
        (match acts[0] {
            PaceActionView::Fire { words, .. } => words,
            _ => Seq::empty(),
        }) + fired_words(acts.drop_first())
    }
}

/// The bookmark events that the actions `acts` fire, in order.
pub open spec fn fired_bookmarks(acts: Seq<PaceActionView>) -> Seq<Seq<char>>
    decreases acts.len(),
{
    if acts.len() == 0 {
        Seq::empty()
    } else {
        (match acts[0] {
            PaceActionView::Fire { bookmarks, .. } => bookmarks,
            _ => Seq::empty(),
        }) + fired_bookmarks(acts.drop_first())
    }
}

/// Over a whole run: the audio offset ends at its start plus every byte the
/// writes reported (a failed write adds nothing); with the silent-PCM loop
/// the events fired are, drain after drain, the drained word indices if the
/// client wants word boundaries and the drained bookmark names if it wants
/// bookmarks; without it no event is fired.
pub proof fn lemma_run(p: Pacer, es: Seq<PaceEventView>)
    requires
        valid_run(p, es),
    ensures
        run_end(p, es).audio_offset == p.audio_offset + written(es),
        run_end(p, es).mode == p.mode,
        run_end(p, es).interest == p.interest,
        fired_words(run_actions(p, es)) == (if p.mode == PaceMode::Timed && interested(
            p.interest,
            SPEI_WORD_BOUNDARY,
        ) {
            drained_words(es)
        } else {
            Seq::empty()
        }),
        fired_bookmarks(run_actions(p, es)) == (if p.mode == PaceMode::Timed && interested(
            p.interest,
            SPEI_TTS_BOOKMARK,
        ) {
            drained_bookmarks(es)
        } else {
            Seq::empty()
        }),
    decreases es.len(),
{
    if es.len() > 0 {
        let e = es[0];
        let (q, a) = pace_next(p, e);
        let rest = es.drop_first();
        lemma_run(q, rest);
        let acts = run_actions(p, es);
        assert(acts[0] == a);
        assert(acts.drop_first() =~= run_actions(q, rest));
        assert(q.mode == p.mode && q.interest == p.interest);
        let ew: Seq<u32> = match e {
            PaceEventView::Drained(snap) => snap.words,
            _ => Seq::empty(),
        };
        let eb: Seq<Seq<char>> = match e {
            PaceEventView::Drained(snap) => snap.bookmarks,
            _ => Seq::empty(),
        };
        let fw: Seq<u32> = match a {
            PaceActionView::Fire { words, .. } => words,
            _ => Seq::empty(),
        };
        let fb: Seq<Seq<char>> = match a {
            PaceActionView::Fire { bookmarks, .. } => bookmarks,
            _ => Seq::empty(),
        };
        assert(fw == (if p.mode == PaceMode::Timed && interested(p.interest, SPEI_WORD_BOUNDARY) {
            ew
        } else {
            Seq::empty()
        }));
        assert(fb == (if p.mode == PaceMode::Timed && interested(p.interest, SPEI_TTS_BOOKMARK) {
            eb
        } else {
            Seq::empty()
        }));
        assert(Seq::<u32>::empty() + Seq::<u32>::empty() =~= Seq::<u32>::empty());
        assert(Seq::<Seq<char>>::empty() + Seq::<Seq<char>>::empty() =~= Seq::<
            Seq<char>,
        >::empty());
    } else {
        assert(fired_words(Seq::<PaceActionView>::empty()) =~= Seq::<u32>::empty());
    }
}

/// A pending cancellation is always an abort or a skip.
proof fn lemma_cancel_outcome_kept(p: Pacer, e: PaceEventView)
    requires
        cancel_is_abort_or_skip(p),
    ensures
        cancel_is_abort_or_skip(pace_next(p, e).0),
{
}

/// The `i`-th event of a run meets the state that the events before it led
/// to, and the `i`-th action is that state's answer to it.
proof fn lemma_run_at(p: Pacer, es: Seq<PaceEventView>, i: int)
    requires
        valid_run(p, es),
        0 <= i < es.len(),
    ensures
        run_actions(p, es).len() == es.len(),
        run_end(p, es.take(i)).phase != PacePhase::Done,
        answers(run_end(p, es.take(i)).phase, es[i]),
        run_actions(p, es)[i] == pace_next(run_end(p, es.take(i)), es[i]).1,
        i + 1 < es.len() ==> pace_next(run_end(p, es.take(i)), es[i]).0.phase != PacePhase::Done,
        cancel_is_abort_or_skip(p) ==> cancel_is_abort_or_skip(run_end(p, es.take(i))),
    decreases i,
{
    let q = pace_next(p, es[0]).0;
    let rest = es.drop_first();
    lemma_run_len(p, es);
    if i == 0 {
        assert(es.take(0) =~= Seq::<PaceEventView>::empty());
        assert(run_actions(p, es)[0] == pace_next(p, es[0]).1);
        if 1 < es.len() {
            assert(rest[0] == es[1]);
        }
    } else {
        lemma_run_at(q, rest, i - 1);
        if cancel_is_abort_or_skip(p) {
            lemma_cancel_outcome_kept(p, es[0]);
        }
        assert(es.take(i)[0] == es[0]);
        assert(es.take(i).drop_first() =~= rest.take(i - 1));
        assert(rest[i - 1] == es[i]);
        assert(run_actions(p, es)[i] == run_actions(q, rest)[i - 1]);
    }
}

/// A run takes one action per event.
proof fn lemma_run_len(p: Pacer, es: Seq<PaceEventView>)
    ensures
        run_actions(p, es).len() == es.len(),
    decreases es.len(),
{
    if es.len() > 0 {
        lemma_run_len(pace_next(p, es[0]).0, es.drop_first());
    }
}

/// Over a whole run: the report that the worker has exited is the last
/// event, and the loop answers it by ending as completed, with or without
/// silent PCM.
pub proof fn lemma_run_speech_end_is_last(p: Pacer, es: Seq<PaceEventView>, i: int)
    requires
        valid_run(p, es),
        0 <= i < es.len(),
        es[i] == PaceEventView::SpeechEnded(true),
    ensures
        run_actions(p, es)[i] == PaceActionView::Finish(PaceOutcome::Completed),
        i == es.len() - 1,
{
    lemma_run_at(p, es, i);
}

/// Over a whole run that starts with no pending cancellation other than an
/// abort or a skip: the loop ends as capped exactly where it finds the cap
/// elapsed, and that report is the last event.
pub proof fn lemma_run_capped(p: Pacer, es: Seq<PaceEventView>, i: int)
    requires
        valid_run(p, es),
        cancel_is_abort_or_skip(p),
        0 <= i < es.len(),
    ensures
        run_actions(p, es)[i] == PaceActionView::Finish(PaceOutcome::SafetyCapped) <==> es[i]
            == PaceEventView::CapReached(true),
        es[i] == PaceEventView::CapReached(true) ==> i == es.len() - 1,
{
    lemma_run_at(p, es, i);
    let q = run_end(p, es.take(i));
    if run_actions(p, es)[i] == PaceActionView::Finish(PaceOutcome::SafetyCapped) {
        lemma_capped_only_by_cap(q, es[i]);
    }
}

} // verus!
