//! What the mark callback records for an utterance, what a drain hands the
//! pacing loop, and the table that routes a mark to its utterance.
use std::collections::HashMap;
use vstd::prelude::*;

use crate::ssml::{MarkView, ParsedMark};

verus! {

broadcast use vstd::std_specs::hash::group_hash_axioms;

/// The character sequences of a vector of strings.
pub open spec fn string_views(v: Seq<String>) -> Seq<Seq<char>> {
    v.map_values(|s: String| s@)
}

/// Marks reported for an utterance since the pacing loop last drained them.
pub struct MarkQueue {
    new_words: Vec<u32>,
    new_bookmarks: Vec<String>,
    end_reached: bool,
}

/// What a drain hands the pacing loop.
pub struct DrainSnapshot {
    pub words: Vec<u32>,
    pub bookmarks: Vec<String>,
    pub end_reached: bool,
}

/// The abstract state of a queue, and of a snapshot: the word indices and
/// the bookmark names in the order they came, and whether the end mark came.
pub ghost struct MarksView {
    pub words: Seq<u32>,
    pub bookmarks: Seq<Seq<char>>,
    pub end_reached: bool,
}

impl View for MarkQueue {
    type V = MarksView;

    closed spec fn view(&self) -> MarksView {
        MarksView {
            words: self.new_words@,
            bookmarks: string_views(self.new_bookmarks@),
            end_reached: self.end_reached,
        }
    }
}

impl View for DrainSnapshot {
    type V = MarksView;

    open spec fn view(&self) -> MarksView {
        MarksView {
            words: self.words@,
            bookmarks: string_views(self.bookmarks@),
            end_reached: self.end_reached,
        }
    }
}

/// The state after one more mark has been recorded.
pub open spec fn spec_record(q: MarksView, m: MarkView) -> MarksView {
    match m {
        MarkView::Word { idx, .. } => MarksView { words: q.words.push(idx), ..q },
        MarkView::Bookmark { name, .. } => MarksView { bookmarks: q.bookmarks.push(name), ..q },
        MarkView::End { .. } => MarksView { end_reached: true, ..q },
    }
}

/// Whether anything is waiting to be drained.
pub open spec fn spec_has_news(q: MarksView) -> bool {
    q.words.len() > 0 || q.bookmarks.len() > 0 || q.end_reached
}

impl MarkQueue {
    /// A queue with nothing recorded.
    pub fn new() -> (q: Self)
        ensures
            q@.words == Seq::<u32>::empty(),
            q@.bookmarks == Seq::<Seq<char>>::empty(),
            !q@.end_reached,
    {
        let q = MarkQueue { new_words: Vec::new(), new_bookmarks: Vec::new(), end_reached: false };
        assert(string_views(q.new_bookmarks@) =~= Seq::<Seq<char>>::empty());
        q
    }

    /// Records a mark that NVDA reached: a word index or a bookmark name
    /// joins the end of its list; the end mark is remembered.
    pub fn record(&mut self, mark: ParsedMark)
        ensures
            final(self)@ == spec_record(old(self)@, mark@),
    {
        match mark {
            ParsedMark::Word { idx, .. } => {
                self.new_words.push(idx);
            },
            ParsedMark::Bookmark { name, .. } => {
                let ghost before = self.new_bookmarks@;
                self.new_bookmarks.push(name);
                assert(string_views(self.new_bookmarks@) =~= string_views(before).push(name@));
            },
            ParsedMark::End { .. } => {
                self.end_reached = true;
            },
        }
    }

    /// Whether a word, a bookmark or the end is waiting.
    pub fn has_news(&self) -> (b: bool)
        ensures
            b == spec_has_news(self@),
    {
        self.new_words.len() > 0 || self.new_bookmarks.len() > 0 || self.end_reached
    }

    /// Hands out everything recorded since the last drain and forgets the
    /// words and bookmarks; whether the end came stays known.
    pub fn drain(&mut self) -> (snap: DrainSnapshot)
        ensures
            snap@ == old(self)@,
            final(self)@.words == Seq::<u32>::empty(),
            final(self)@.bookmarks == Seq::<Seq<char>>::empty(),
            final(self)@.end_reached == old(self)@.end_reached,
    {
        let mut words: Vec<u32> = Vec::new();
        let mut bookmarks: Vec<String> = Vec::new();
        core::mem::swap(&mut words, &mut self.new_words);
        core::mem::swap(&mut bookmarks, &mut self.new_bookmarks);
        assert(string_views(self.new_bookmarks@) =~= Seq::<Seq<char>>::empty());
        DrainSnapshot { words, bookmarks, end_reached: self.end_reached }
    }
}

impl Default for MarkQueue {
    fn default() -> (q: Self)
        ensures
            q@.words == Seq::<u32>::empty(),
            q@.bookmarks == Seq::<Seq<char>>::empty(),
            !q@.end_reached,
    {
        MarkQueue::new()
    }
}

/// The state after recording the marks `ms` in order.
pub open spec fn record_all(q: MarksView, ms: Seq<MarkView>) -> MarksView
    decreases ms.len(),
{
    if ms.len() == 0 {
        q
    } else {
        spec_record(record_all(q, ms.drop_last()), ms.last())
    }
}

/// The word indices among the marks `ms`, in order.
pub open spec fn word_indices(ms: Seq<MarkView>) -> Seq<u32>
    decreases ms.len(),
{
    if ms.len() == 0 {
        Seq::empty()
    } else {
        word_indices(ms.drop_last()) + match ms.last() {
            MarkView::Word { idx, .. } => seq![idx],
            _ => Seq::empty(),
        }
    }
}

/// The bookmark names among the marks `ms`, in order.
pub open spec fn bookmark_names(ms: Seq<MarkView>) -> Seq<Seq<char>>
    decreases ms.len(),
{
    if ms.len() == 0 {
        Seq::empty()
    } else {
        bookmark_names(ms.drop_last()) + match ms.last() {
            MarkView::Bookmark { name, .. } => seq![name],
            _ => Seq::empty(),
        }
    }
}

/// Recording marks one after another keeps each kind in the order the
/// marks came: the word indices and bookmark names are appended in order,
/// and the end is known once an end mark has come, and from then on.
pub proof fn lemma_record_all(q: MarksView, ms: Seq<MarkView>)
    ensures
        record_all(q, ms).words == q.words + word_indices(ms),
        record_all(q, ms).bookmarks == q.bookmarks + bookmark_names(ms),
        record_all(q, ms).end_reached == (q.end_reached || exists|i: int|
            0 <= i < ms.len() && #[trigger] ms[i] is End),
    decreases ms.len(),
{
    if ms.len() == 0 {
        assert(q.words + word_indices(ms) =~= q.words);
        assert(q.bookmarks + bookmark_names(ms) =~= q.bookmarks);
    } else {
        let p = ms.drop_last();
        lemma_record_all(q, p);
        assert(q.words + word_indices(ms) =~= q.words + word_indices(p) + match ms.last() {
            MarkView::Word { idx, .. } => seq![idx],
            _ => Seq::empty(),
        });
        assert(q.bookmarks + bookmark_names(ms) =~= q.bookmarks + bookmark_names(p) + match ms.last() {
            MarkView::Bookmark { name, .. } => seq![name],
            _ => Seq::empty(),
        });
        let last = ms.last();
        if exists|i: int| 0 <= i < p.len() && #[trigger] p[i] is End {
            let i = choose|i: int| 0 <= i < p.len() && #[trigger] p[i] is End;
            assert(ms[i] == p[i]);
        }
        if exists|i: int| 0 <= i < ms.len() && #[trigger] ms[i] is End {
            let i = choose|i: int| 0 <= i < ms.len() && #[trigger] ms[i] is End;
            if i < p.len() {
                assert(p[i] == ms[i]);
            }
        }
        match last {
            MarkView::Word { idx, .. } => {
                assert(record_all(q, p).words.push(idx) =~= record_all(q, p).words + seq![idx]);
            },
            MarkView::Bookmark { name, .. } => {
                assert(record_all(q, p).bookmarks.push(name) =~= record_all(q, p).bookmarks + seq![name]);
            },
            MarkView::End { .. } => {
                assert(ms[ms.len() - 1] is End);
            },
        }
    }
}

/// The utterance that a mark belongs to.
pub open spec fn spec_mark_utterance(m: MarkView) -> u64 {
    match m {
        MarkView::Word { utt, .. } => utt,
        MarkView::End { utt } => utt,
        MarkView::Bookmark { utt, .. } => utt,
    }
}

/// The utterance that a mark belongs to.
pub fn mark_utterance(m: &ParsedMark) -> (utt: u64)
    ensures
        utt == spec_mark_utterance(m@),
{
    match m {
        ParsedMark::Word { utt, .. } => *utt,
        ParsedMark::End { utt } => *utt,
        ParsedMark::Bookmark { utt, .. } => *utt,
    }
}

/// The utterances in flight, each with the channel its marks go to.
pub struct MarkRegistry<C> {
    channels: HashMap<u64, C>,
}

impl<C> View for MarkRegistry<C> {
    type V = Map<u64, C>;

    closed spec fn view(&self) -> Map<u64, C> {
        self.channels@
    }
}

impl<C> MarkRegistry<C> {
    /// A registry with no utterance in it.
    pub fn new() -> (r: Self)
        ensures
            r@ == Map::<u64, C>::empty(),
    {
        MarkRegistry { channels: HashMap::new() }
    }

    /// Routes the marks of utterance `utt` to `channel` from now on.
    pub fn register(&mut self, utt: u64, channel: C)
        ensures
            final(self)@ == old(self)@.insert(utt, channel),
    {
        self.channels.insert(utt, channel);
    }

    /// Stops routing the marks of utterance `utt`.
    pub fn unregister(&mut self, utt: u64)
        ensures
            final(self)@ == old(self)@.remove(utt),
    {
        self.channels.remove(&utt);
    }

    /// The channel that the marks of utterance `utt` go to, if any.
    pub fn channel(&self, utt: u64) -> (r: Option<&C>)
        ensures
            match r {
                Some(c) => self@.contains_key(utt) && *c == self@[utt],
                None => !self@.contains_key(utt),
            },
    {
        self.channels.get(&utt)
    }
}

} // verus!
