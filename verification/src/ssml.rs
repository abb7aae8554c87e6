//! SSML for one utterance: prosody mapping, XML escaping, mark naming and
//! parsing, and the word-by-word document with a mark after every word.
use vstd::prelude::*;

pub use crate::rate::rate_percent;
use crate::rate::spec_rate_percent;
use crate::words::{lemma_words_len_prefix, scan_words, words};
use crate::text::{
    chars_of, dec, parse_uint, parse_uint_range, push_char, push_dec, push_range, push_signed_dec,
    signed_dec, split_first, split_first_range, white_space, lemma_dec, lemma_parse_dec,
    lemma_split_first_concat, is_digit,
};

verus! {

// ---------------------------------------------------------------------------
// Utterance ids
// ---------------------------------------------------------------------------

/// The first utterance id handed out.
pub const FIRST_UTTERANCE_ID: u64 = 0;

/// The counter after one id was handed out: one more, wrapping at `u64::MAX`.
pub open spec fn spec_next_counter(c: u64) -> u64 {
    if c == u64::MAX {
        0
    } else {
        (c + 1) as u64
    }
}

/// The ids that `k` calls hand out from a counter at `c`, in order.
pub open spec fn ids_from(c: u64, k: nat) -> Seq<u64>
    decreases k,
{
    if k == 0 {
        Seq::empty()
    } else {
        seq![c] + ids_from(spec_next_counter(c), (k - 1) as nat)
    }
}

/// Until the counter wraps, successive calls hand out successive ids: each
/// larger than the one before, none handed out twice.
pub proof fn lemma_ids_count_up(c: u64, k: nat)
    requires
        c + k <= u64::MAX + 1,
    ensures
        ids_from(c, k).len() == k,
        forall|i: int| 0 <= i < k ==> #[trigger] ids_from(c, k)[i] == c + i,
    decreases k,
{
    if k > 0 {
        if k > 1 {
            lemma_ids_count_up((c + 1) as u64, (k - 1) as nat);
        } else {
            assert(ids_from(spec_next_counter(c), 0) =~= Seq::<u64>::empty());
        }
        let r = ids_from(spec_next_counter(c), (k - 1) as nat);
        assert forall|i: int| 0 <= i < k implies #[trigger] ids_from(c, k)[i] == c + i by {
            if i > 0 {
                assert(ids_from(c, k)[i] == r[i - 1]);
            }
        }
    }
}

/// Hands out the next utterance id from a monotonic counter: the counter's
/// value, after which the counter moves on by one (wrapping at `u64::MAX`).
pub fn next_utterance_id(counter: &mut u64) -> (id: u64)
    ensures
        id == *old(counter),
        *final(counter) == spec_next_counter(*old(counter)),
{
    let id = *counter;
    *counter = if id == u64::MAX {
        0
    } else {
        id + 1
    };
    id
}

// ---------------------------------------------------------------------------
// Prosody
// ---------------------------------------------------------------------------

/// Prosody adjustments from an SPVSTATE.
#[derive(Debug, Clone, Copy, PartialEq)]
pub struct Prosody {
    pub rate_adj: i32,
    pub volume: u32,
    pub pitch_adj: i32,
}

/// The SAPI defaults: RateAdj 0, Volume 100, PitchAdj 0.
pub open spec fn is_default_prosody(p: Prosody) -> bool {
    p.rate_adj == 0 && p.volume == 100 && p.pitch_adj == 0
}

impl Prosody {
    /// Default per SAPI: RateAdj 0, Volume 100, PitchAdj 0.
    pub fn defaults() -> (p: Self)
        ensures
            p.rate_adj == 0,
            p.volume == 100,
            p.pitch_adj == 0,
    {
        Prosody { rate_adj: 0, volume: 100, pitch_adj: 0 }
    }

    /// Whether every field holds its SAPI default.
    pub fn is_default(&self) -> (b: bool)
        ensures
            b == is_default_prosody(*self),
    {
        self.rate_adj == 0 && self.volume == 100 && self.pitch_adj == 0
    }
}

impl Default for Prosody {
    fn default() -> (p: Self)
        ensures
            is_default_prosody(p),
    {
        Self::defaults()
    }
}

/// `+Nst` for a non-negative pitch adjustment, `-Nst` for a negative one.
pub open spec fn spec_pitch_attr(pitch_adj: int) -> Seq<char> {
    if pitch_adj >= 0 {
        seq!['+'] + dec(pitch_adj as nat) + seq!['s', 't']
    } else {
        signed_dec(pitch_adj) + seq!['s', 't']
    }
}

/// Convert a SAPI PitchAdj into an SSML `pitch="+Nst"`/`"-Nst"` value.
pub fn pitch_attr(pitch_adj: i32) -> (s: String)
    ensures
        s@ == spec_pitch_attr(pitch_adj as int),
{
    let mut s = String::new();
    if pitch_adj >= 0 {
        push_char(&mut s, '+');
    }
    push_signed_dec(&mut s, pitch_adj as i64);
    push_char(&mut s, 's');
    push_char(&mut s, 't');
    proof {
        if pitch_adj >= 0 {
            assert(s@ =~= spec_pitch_attr(pitch_adj as int));
        } else {
            assert(s@ =~= spec_pitch_attr(pitch_adj as int));
        }
    }
    s
}

/// The `<prosody>` opening tag for `p`.
pub open spec fn prosody_tag(p: Prosody) -> Seq<char> {
    "<prosody rate=\""@ + dec(spec_rate_percent(p.rate_adj as int) as nat) + "%\" volume=\""@
        + dec(p.volume as nat) + "\" pitch=\""@ + spec_pitch_attr(p.pitch_adj as int) + "\">"@
}

/// The `<prosody>` opening tag, or nothing when every value is the default.
pub open spec fn spec_prosody_open(p: Prosody) -> Option<Seq<char>> {
    if is_default_prosody(p) {
        None
    } else {
        Some(prosody_tag(p))
    }
}

/// Render a `<prosody>` opening tag, or `None` if all values are default.
pub fn prosody_open(p: Prosody) -> (r: Option<String>)
    ensures
        match spec_prosody_open(p) {
            Some(t) => r matches Some(s) && s@ == t,
            None => r is None,
        },
{
    if p.is_default() {
        return None;
    }
    let mut s = String::new();
    s.append("<prosody rate=\"");
    push_dec(&mut s, rate_percent(p.rate_adj) as u64);
    s.append("%\" volume=\"");
    push_dec(&mut s, p.volume as u64);
    s.append("\" pitch=\"");
    let pitch = pitch_attr(p.pitch_adj);
    s.append(pitch.as_str());
    s.append("\">");
    assert(s@ =~= prosody_tag(p));
    Some(s)
}

// ---------------------------------------------------------------------------
// XML escaping
// ---------------------------------------------------------------------------

/// The escape of one character.
pub open spec fn escape_char(c: char) -> Seq<char> {
    if c == '&' {
        seq!['&', 'a', 'm', 'p', ';']
    } else if c == '<' {
        seq!['&', 'l', 't', ';']
    } else if c == '>' {
        seq!['&', 'g', 't', ';']
    } else if c == '"' {
        seq!['&', 'q', 'u', 'o', 't', ';']
    } else if c == '\'' {
        seq!['&', 'a', 'p', 'o', 's', ';']
    } else {
        seq![c]
    }
}

/// `s` with each character replaced by its escape.
pub open spec fn escape(s: Seq<char>) -> Seq<char>
    decreases s.len(),
{
    if s.len() == 0 {
        Seq::empty()
    } else {
        escape(s.drop_last()) + escape_char(s.last())
    }
}

/// A character that XML escaping leaves nowhere in its output.
pub open spec fn is_markup_char(c: char) -> bool {
    c == '<' || c == '>' || c == '"' || c == '\''
}

/// Escaped text holds no `<`, `>`, `"` or `'`: it cannot open or close a
/// tag or end an attribute value.
pub proof fn lemma_escape_no_markup(s: Seq<char>)
    ensures
        forall|i: int| 0 <= i < escape(s).len() ==> !is_markup_char(#[trigger] escape(s)[i]),
    decreases s.len(),
{
    if s.len() > 0 {
        lemma_escape_no_markup(s.drop_last());
        let a = escape(s.drop_last());
        let b = escape_char(s.last());
        assert forall|i: int| 0 <= i < escape(s).len() implies !is_markup_char(
            #[trigger] escape(s)[i],
        ) by {
            if i < a.len() {
                assert(escape(s)[i] == a[i]);
            } else {
                assert(escape(s)[i] == b[i - a.len()]);
            }
        }
    }
}

/// `&amp;`.
pub open spec fn ent_amp() -> Seq<char> {
    seq!['&', 'a', 'm', 'p', ';']
}

/// `&lt;`.
pub open spec fn ent_lt() -> Seq<char> {
    seq!['&', 'l', 't', ';']
}

/// `&gt;`.
pub open spec fn ent_gt() -> Seq<char> {
    seq!['&', 'g', 't', ';']
}

/// `&quot;`.
pub open spec fn ent_quot() -> Seq<char> {
    seq!['&', 'q', 'u', 'o', 't', ';']
}

/// `&apos;`.
pub open spec fn ent_apos() -> Seq<char> {
    seq!['&', 'a', 'p', 'o', 's', ';']
}

/// `s` begins with one of the five entities.
pub open spec fn starts_entity(s: Seq<char>) -> bool {
    has_prefix(s, ent_amp()) || has_prefix(s, ent_lt()) || has_prefix(s, ent_gt()) || has_prefix(
        s,
        ent_quot(),
    ) || has_prefix(s, ent_apos())
}

/// One left-to-right pass that replaces each of the five entities by its
/// character and keeps every other character.
pub open spec fn unescape(s: Seq<char>) -> Seq<char>
    decreases s.len(),
{
    if s.len() == 0 {
        Seq::empty()
    } else if has_prefix(s, ent_amp()) {
        seq!['&'] + unescape(s.skip(5))
    } else if has_prefix(s, ent_lt()) {
        seq!['<'] + unescape(s.skip(4))
    } else if has_prefix(s, ent_gt()) {
        seq!['>'] + unescape(s.skip(4))
    } else if has_prefix(s, ent_quot()) {
        seq!['"'] + unescape(s.skip(6))
    } else if has_prefix(s, ent_apos()) {
        seq!['\''] + unescape(s.skip(6))
    } else {
        seq![s[0]] + unescape(s.drop_first())
    }
}

/// A character that escaping changes.
pub open spec fn is_special_char(c: char) -> bool {
    c == '&' || is_markup_char(c)
}

proof fn lemma_has_prefix_append(s: Seq<char>, p: Seq<char>, t: Seq<char>)
    requires
        has_prefix(s, p),
    ensures
        has_prefix(s + t, p),
{
    assert((s + t).take(p.len() as int) =~= s.take(p.len() as int));
}

/// Escaping a concatenation escapes each part.
pub proof fn lemma_escape_concat(a: Seq<char>, b: Seq<char>)
    ensures
        escape(a + b) == escape(a) + escape(b),
    decreases b.len(),
{
    if b.len() == 0 {
        assert(a + b =~= a);
        assert(escape(a) + escape(b) =~= escape(a));
    } else {
        lemma_escape_concat(a, b.drop_last());
        assert((a + b).drop_last() =~= a + b.drop_last());
        assert((a + b).last() == b.last());
        assert(escape(a) + escape(b) =~= escape(a) + escape(b.drop_last()) + escape_char(b.last()));
    }
}

proof fn lemma_unescape_escape_char(c: char, t: Seq<char>)
    ensures
        unescape(escape_char(c) + t) == seq![c] + unescape(t),
{
    let x = escape_char(c) + t;
    if c == '&' {
        assert(x.take(5) =~= ent_amp());
        assert(x.skip(5) =~= t);
    } else if c == '<' {
        assert(x[1] == 'l');
        assert(!has_prefix(x, ent_amp())) by {
            if has_prefix(x, ent_amp()) {
                assert(x.take(5)[1] == x[1]);
            }
        }
        assert(x.take(4) =~= ent_lt());
        assert(x.skip(4) =~= t);
    } else if c == '>' {
        assert(x[1] == 'g');
        assert(!has_prefix(x, ent_amp()) && !has_prefix(x, ent_lt())) by {
            if has_prefix(x, ent_amp()) {
                assert(x.take(5)[1] == x[1]);
            }
            if has_prefix(x, ent_lt()) {
                assert(x.take(4)[1] == x[1]);
            }
        }
        assert(x.take(4) =~= ent_gt());
        assert(x.skip(4) =~= t);
    } else if c == '"' {
        assert(x[1] == 'q');
        assert(!has_prefix(x, ent_amp()) && !has_prefix(x, ent_lt()) && !has_prefix(x, ent_gt()))
            by {
            if has_prefix(x, ent_amp()) {
                assert(x.take(5)[1] == x[1]);
            }
            if has_prefix(x, ent_lt()) {
                assert(x.take(4)[1] == x[1]);
            }
            if has_prefix(x, ent_gt()) {
                assert(x.take(4)[1] == x[1]);
            }
        }
        assert(x.take(6) =~= ent_quot());
        assert(x.skip(6) =~= t);
    } else if c == '\'' {
        assert(x[1] == 'a' && x[2] == 'p');
        assert(!has_prefix(x, ent_amp()) && !has_prefix(x, ent_lt()) && !has_prefix(x, ent_gt())
            && !has_prefix(x, ent_quot())) by {
            if has_prefix(x, ent_amp()) {
                assert(x.take(5)[2] == x[2]);
            }
            if has_prefix(x, ent_lt()) {
                assert(x.take(4)[1] == x[1]);
            }
            if has_prefix(x, ent_gt()) {
                assert(x.take(4)[1] == x[1]);
            }
            if has_prefix(x, ent_quot()) {
                assert(x.take(6)[1] == x[1]);
            }
        }
        assert(x.take(6) =~= ent_apos());
        assert(x.skip(6) =~= t);
    } else {
        assert(x[0] == c);
        assert(!starts_entity(x)) by {
            if has_prefix(x, ent_amp()) {
                assert(x.take(5)[0] == x[0]);
            }
            if has_prefix(x, ent_lt()) {
                assert(x.take(4)[0] == x[0]);
            }
            if has_prefix(x, ent_gt()) {
                assert(x.take(4)[0] == x[0]);
            }
            if has_prefix(x, ent_quot()) {
                assert(x.take(6)[0] == x[0]);
            }
            if has_prefix(x, ent_apos()) {
                assert(x.take(6)[0] == x[0]);
            }
        }
        assert(x.drop_first() =~= t);
    }
}

/// Unescaping the escape of `s` gives `s` back.
pub proof fn lemma_unescape_escape(s: Seq<char>)
    ensures
        unescape(escape(s)) == s,
    decreases s.len(),
{
    if s.len() > 0 {
        let rest = s.drop_first();
        assert(s =~= seq![s[0]] + rest);
        lemma_escape_concat(seq![s[0]], rest);
        let one = seq![s[0]];
        assert(one.drop_last() =~= Seq::<char>::empty());
        assert(one.last() == s[0]);
        assert(escape(one.drop_last()) =~= Seq::<char>::empty());
        assert(escape(one) == escape(one.drop_last()) + escape_char(one.last()));
        assert(escape(one) =~= escape_char(s[0]));
        lemma_unescape_escape_char(s[0], escape(rest));
        lemma_unescape_escape(rest);
    }
}

/// Text without `&`, `<`, `>`, `"` or `'` is its own escape.
pub proof fn lemma_escape_plain(s: Seq<char>)
    requires
        forall|i: int| 0 <= i < s.len() ==> !is_special_char(#[trigger] s[i]),
    ensures
        escape(s) == s,
    decreases s.len(),
{
    if s.len() > 0 {
        let p = s.drop_last();
        assert forall|i: int| 0 <= i < p.len() implies !is_special_char(#[trigger] p[i]) by {
            assert(p[i] == s[i]);
        }
        lemma_escape_plain(p);
        assert(!is_special_char(s[s.len() - 1]));
        assert(p.push(s.last()) =~= s);
    }
}

/// Text without `&` is its own unescape.
pub proof fn lemma_unescape_plain(s: Seq<char>)
    requires
        forall|i: int| 0 <= i < s.len() ==> #[trigger] s[i] != '&',
    ensures
        unescape(s) == s,
    decreases s.len(),
{
    if s.len() > 0 {
        assert(!starts_entity(s)) by {
            if has_prefix(s, ent_amp()) {
                assert(s.take(5)[0] == s[0]);
            }
            if has_prefix(s, ent_lt()) {
                assert(s.take(4)[0] == s[0]);
            }
            if has_prefix(s, ent_gt()) {
                assert(s.take(4)[0] == s[0]);
            }
            if has_prefix(s, ent_quot()) {
                assert(s.take(6)[0] == s[0]);
            }
            if has_prefix(s, ent_apos()) {
                assert(s.take(6)[0] == s[0]);
            }
        }
        let r = s.drop_first();
        assert forall|i: int| 0 <= i < r.len() implies #[trigger] r[i] != '&' by {
            assert(r[i] == s[i + 1]);
        }
        lemma_unescape_plain(r);
        assert(seq![s[0]] + r =~= s);
    }
}

/// Every `&` in escaped text begins one of the five entities.
pub proof fn lemma_escape_ampersands(s: Seq<char>)
    ensures
        forall|i: int|
            0 <= i < escape(s).len() && #[trigger] escape(s)[i] == '&' ==> starts_entity(
                escape(s).skip(i),
            ),
    decreases s.len(),
{
    if s.len() > 0 {
        let a = escape(s.drop_last());
        let c = s.last();
        let b = escape_char(c);
        lemma_escape_ampersands(s.drop_last());
        assert forall|i: int| 0 <= i < escape(s).len() && #[trigger] escape(s)[i] == '&' implies starts_entity(
            escape(s).skip(i),
        ) by {
            let e = escape(s);
            assert(e == a + b);
            if i < a.len() {
                assert(e[i] == a[i]);
                assert(e.skip(i) =~= a.skip(i) + b);
                let x = a.skip(i);
                if has_prefix(x, ent_amp()) {
                    lemma_has_prefix_append(x, ent_amp(), b);
                } else if has_prefix(x, ent_lt()) {
                    lemma_has_prefix_append(x, ent_lt(), b);
                } else if has_prefix(x, ent_gt()) {
                    lemma_has_prefix_append(x, ent_gt(), b);
                } else if has_prefix(x, ent_quot()) {
                    lemma_has_prefix_append(x, ent_quot(), b);
                } else {
                    lemma_has_prefix_append(x, ent_apos(), b);
                }
            } else {
                let j = i - a.len();
                assert(e[i] == b[j]);
                assert(j == 0);
                assert(e.skip(i) =~= b);
                assert(b.take(b.len() as int) =~= b);
            }
        }
    }
}

fn push_escaped_char(out: &mut String, c: char)
    ensures
        final(out)@ == old(out)@ + escape_char(c),
{
    if c == '&' {
        push_char(out, '&');
        push_char(out, 'a');
        push_char(out, 'm');
        push_char(out, 'p');
        push_char(out, ';');
    } else if c == '<' {
        push_char(out, '&');
        push_char(out, 'l');
        push_char(out, 't');
        push_char(out, ';');
    } else if c == '>' {
        push_char(out, '&');
        push_char(out, 'g');
        push_char(out, 't');
        push_char(out, ';');
    } else if c == '"' {
        push_char(out, '&');
        push_char(out, 'q');
        push_char(out, 'u');
        push_char(out, 'o');
        push_char(out, 't');
        push_char(out, ';');
    } else if c == '\'' {
        push_char(out, '&');
        push_char(out, 'a');
        push_char(out, 'p');
        push_char(out, 'o');
        push_char(out, 's');
        push_char(out, ';');
    } else {
        push_char(out, c);
    }
    assert(final(out)@ =~= old(out)@ + escape_char(c));
}

/// Appends the escape of `cs[lo..hi]` to `out`.
fn push_escaped(out: &mut String, cs: &Vec<char>, lo: usize, hi: usize)
    requires
        lo <= hi <= cs@.len(),
    ensures
        final(out)@ == old(out)@ + escape(cs@.subrange(lo as int, hi as int)),
{
    let mut i = lo;
    assert(cs@.subrange(lo as int, lo as int) =~= Seq::<char>::empty());
    while i < hi
        invariant
            lo <= i <= hi <= cs@.len(),
            out@ == old(out)@ + escape(cs@.subrange(lo as int, i as int)),
        decreases hi - i,
    {
        push_escaped_char(out, cs[i]);
        assert(cs@.subrange(lo as int, i + 1).drop_last() =~= cs@.subrange(lo as int, i as int));
        assert(out@ =~= old(out)@ + escape(cs@.subrange(lo as int, i + 1)));
        i = i + 1;
    }
}

/// Escapes `&`, `<`, `>`, `"` and `'` for use in XML text and attributes.
pub fn xml_escape(s: &str) -> (r: String)
    ensures
        r@ == escape(s@),
{
    let cs = chars_of(s);
    let mut out = String::new();
    push_escaped(&mut out, &cs, 0, cs.len());
    assert(cs@.subrange(0, cs@.len() as int) =~= s@);
    assert(out@ =~= escape(s@));
    out
}

// ---------------------------------------------------------------------------
// Mark names
// ---------------------------------------------------------------------------

/// `w_<utt>_<word_idx>`.
pub open spec fn spec_word_mark(utt: nat, idx: nat) -> Seq<char> {
    seq!['w', '_'] + dec(utt) + seq!['_'] + dec(idx)
}

/// `end_<utt>`.
pub open spec fn spec_end_mark(utt: nat) -> Seq<char> {
    seq!['e', 'n', 'd', '_'] + dec(utt)
}

/// `bm_<utt>_<name>`.
pub open spec fn spec_bookmark_mark(utt: nat, name: Seq<char>) -> Seq<char> {
    seq!['b', 'm', '_'] + dec(utt) + seq!['_'] + name
}

fn push_word_mark(out: &mut String, utt: u64, word_idx: u32)
    ensures
        final(out)@ == old(out)@ + spec_word_mark(utt as nat, word_idx as nat),
{
    push_char(out, 'w');
    push_char(out, '_');
    push_dec(out, utt);
    push_char(out, '_');
    push_dec(out, word_idx as u64);
    assert(final(out)@ =~= old(out)@ + spec_word_mark(utt as nat, word_idx as nat));
}

fn push_end_mark(out: &mut String, utt: u64)
    ensures
        final(out)@ == old(out)@ + spec_end_mark(utt as nat),
{
    push_char(out, 'e');
    push_char(out, 'n');
    push_char(out, 'd');
    push_char(out, '_');
    push_dec(out, utt);
    assert(final(out)@ =~= old(out)@ + spec_end_mark(utt as nat));
}

/// Mark name for a word boundary: `w_<utt>_<word_idx>`.
pub fn word_mark(utt: u64, word_idx: u32) -> (s: String)
    ensures
        s@ == spec_word_mark(utt as nat, word_idx as nat),
{
    let mut s = String::new();
    push_word_mark(&mut s, utt, word_idx);
    assert(s@ =~= spec_word_mark(utt as nat, word_idx as nat));
    s
}

/// Mark name for utterance end: `end_<utt>`.
pub fn end_mark(utt: u64) -> (s: String)
    ensures
        s@ == spec_end_mark(utt as nat),
{
    let mut s = String::new();
    push_end_mark(&mut s, utt);
    assert(s@ =~= spec_end_mark(utt as nat));
    s
}

/// Mark name for a user bookmark: `bm_<utt>_<userbookmark>`.
pub fn bookmark_mark(utt: u64, name: &str) -> (s: String)
    ensures
        s@ == spec_bookmark_mark(utt as nat, name@),
{
    let mut s = String::new();
    push_char(&mut s, 'b');
    push_char(&mut s, 'm');
    push_char(&mut s, '_');
    push_dec(&mut s, utt);
    push_char(&mut s, '_');
    s.append(name);
    assert(s@ =~= spec_bookmark_mark(utt as nat, name@));
    s
}

// ---------------------------------------------------------------------------
// Mark parsing
// ---------------------------------------------------------------------------

/// A mark that NVDA reported, as SAPIence named it.
#[derive(Debug, Clone, PartialEq)]
pub enum ParsedMark {
    Word { utt: u64, idx: u32 },
    End { utt: u64 },
    Bookmark { utt: u64, name: String },
}

/// A parsed mark with its bookmark name as a character sequence.
pub ghost enum MarkView {
    Word { utt: u64, idx: u32 },
    End { utt: u64 },
    Bookmark { utt: u64, name: Seq<char> },
}

impl View for ParsedMark {
    type V = MarkView;

    open spec fn view(&self) -> MarkView {
        match self {
            ParsedMark::Word { utt, idx } => MarkView::Word { utt: *utt, idx: *idx },
            ParsedMark::End { utt } => MarkView::End { utt: *utt },
            ParsedMark::Bookmark { utt, name } => MarkView::Bookmark { utt: *utt, name: name@ },
        }
    }
}

/// `p` is a prefix of `s`.
pub open spec fn has_prefix(s: Seq<char>, p: Seq<char>) -> bool {
    p.len() <= s.len() && s.take(p.len() as int) == p
}

/// What a mark name parses to: `w_<u64>_<u32>`, `end_<u64>` or
/// `bm_<u64>_<any name>`, each number as `str::parse` reads it.
pub open spec fn spec_parse_mark(n: Seq<char>) -> Option<MarkView> {
    if has_prefix(n, seq!['w', '_']) {
        match split_first(n.skip(2), '_') {
            Some((a, b)) => match (parse_uint(a, u64::MAX as nat), parse_uint(b, u32::MAX as nat)) {
                (Some(u), Some(i)) => Some(MarkView::Word { utt: u as u64, idx: i as u32 }),
                _ => None,
            },
            None => None,
        }
    } else if has_prefix(n, seq!['e', 'n', 'd', '_']) {
        match parse_uint(n.skip(4), u64::MAX as nat) {
            Some(u) => Some(MarkView::End { utt: u as u64 }),
            None => None,
        }
    } else if has_prefix(n, seq!['b', 'm', '_']) {
        match split_first(n.skip(3), '_') {
            Some((a, b)) => match parse_uint(a, u64::MAX as nat) {
                Some(u) => Some(MarkView::Bookmark { utt: u as u64, name: b }),
                None => None,
            },
            None => None,
        }
    } else {
        None
    }
}

/// The view of an optional parsed mark.
pub open spec fn opt_view(r: Option<ParsedMark>) -> Option<MarkView> {
    match r {
        Some(m) => Some(m@),
        None => None,
    }
}

fn prefix_w(cs: &Vec<char>) -> (b: bool)
    ensures
        b == has_prefix(cs@, seq!['w', '_']),
{
    let b = cs.len() >= 2 && cs[0] == 'w' && cs[1] == '_';
    assert(b ==> cs@.take(2) =~= seq!['w', '_']);
    assert(has_prefix(cs@, seq!['w', '_']) ==> cs@.take(2)[0] == 'w' && cs@.take(2)[1] == '_');
    b
}

fn prefix_end(cs: &Vec<char>) -> (b: bool)
    ensures
        b == has_prefix(cs@, seq!['e', 'n', 'd', '_']),
{
    let b = cs.len() >= 4 && cs[0] == 'e' && cs[1] == 'n' && cs[2] == 'd' && cs[3] == '_';
    assert(b ==> cs@.take(4) =~= seq!['e', 'n', 'd', '_']);
    assert(has_prefix(cs@, seq!['e', 'n', 'd', '_']) ==> cs@.take(4)[0] == 'e' && cs@.take(4)[1]
        == 'n' && cs@.take(4)[2] == 'd' && cs@.take(4)[3] == '_');
    b
}

fn prefix_bm(cs: &Vec<char>) -> (b: bool)
    ensures
        b == has_prefix(cs@, seq!['b', 'm', '_']),
{
    let b = cs.len() >= 3 && cs[0] == 'b' && cs[1] == 'm' && cs[2] == '_';
    assert(b ==> cs@.take(3) =~= seq!['b', 'm', '_']);
    assert(has_prefix(cs@, seq!['b', 'm', '_']) ==> cs@.take(3)[0] == 'b' && cs@.take(3)[1] == 'm'
        && cs@.take(3)[2] == '_');
    b
}

/// Parses a mark name back into what it marks: a word boundary, the end of
/// an utterance, or a user bookmark; `None` for any other name.
pub fn parse_mark(name: &str) -> (r: Option<ParsedMark>)
    ensures
        opt_view(r) == spec_parse_mark(name@),
{
    let cs = chars_of(name);
    let n = cs.len();
    assert(cs@.subrange(0, n as int) =~= cs@);
    if prefix_w(&cs) {
        assert(cs@.skip(2) =~= cs@.subrange(2, n as int));
        match split_first_range(&cs, 2, n, '_') {
            Some(m) => {
                let utt = parse_uint_range(&cs, 2, m, u64::MAX);
                let idx = parse_uint_range(&cs, m + 1, n, u32::MAX as u64);
                match (utt, idx) {
                    (Some(u), Some(i)) => Some(ParsedMark::Word { utt: u, idx: i as u32 }),
                    _ => None,
                }
            },
            None => None,
        }
    } else if prefix_end(&cs) {
        assert(cs@.skip(4) =~= cs@.subrange(4, n as int));
        match parse_uint_range(&cs, 4, n, u64::MAX) {
            Some(u) => Some(ParsedMark::End { utt: u }),
            None => None,
        }
    } else if prefix_bm(&cs) {
        assert(cs@.skip(3) =~= cs@.subrange(3, n as int));
        match split_first_range(&cs, 3, n, '_') {
            Some(m) => match parse_uint_range(&cs, 3, m, u64::MAX) {
                Some(u) => {
                    let mut b = String::new();
                    push_range(&mut b, &cs, m + 1, n);
                    assert(b@ =~= cs@.subrange(m + 1, n as int));
                    Some(ParsedMark::Bookmark { utt: u, name: b })
                },
                None => None,
            },
            None => None,
        }
    } else {
        None
    }
}

/// No digit string holds an underscore.
proof fn lemma_dec_no_underscore(n: nat)
    ensures
        forall|j: int| 0 <= j < dec(n).len() ==> dec(n)[j] != '_',
{
    lemma_dec(n);
    assert forall|j: int| 0 <= j < dec(n).len() implies dec(n)[j] != '_' by {
        assert(is_digit(dec(n)[j]));
    }
}

/// Parsing the name of a word-boundary mark gives back its utterance and
/// its word index.
pub proof fn lemma_word_mark_roundtrip(utt: u64, idx: u32)
    ensures
        spec_parse_mark(spec_word_mark(utt as nat, idx as nat)) == Some(
            MarkView::Word { utt, idx },
        ),
{
    let n = spec_word_mark(utt as nat, idx as nat);
    assert(n.take(2) =~= seq!['w', '_']);
    assert(n.skip(2) =~= dec(utt as nat) + seq!['_'] + dec(idx as nat));
    lemma_dec_no_underscore(utt as nat);
    lemma_split_first_concat(dec(utt as nat), '_', dec(idx as nat));
    lemma_parse_dec(utt as nat, u64::MAX as nat);
    lemma_parse_dec(idx as nat, u32::MAX as nat);
}

/// Parsing the name of an end mark gives back its utterance.
pub proof fn lemma_end_mark_roundtrip(utt: u64)
    ensures
        spec_parse_mark(spec_end_mark(utt as nat)) == Some(MarkView::End { utt }),
{
    let n = spec_end_mark(utt as nat);
    assert(n[0] == 'e');
    assert(!has_prefix(n, seq!['w', '_'])) by {
        if has_prefix(n, seq!['w', '_']) {
            assert(n.take(2)[0] == n[0]);
        }
    }
    assert(n.take(4) =~= seq!['e', 'n', 'd', '_']);
    assert(n.skip(4) =~= dec(utt as nat));
    lemma_parse_dec(utt as nat, u64::MAX as nat);
}

/// Parsing the name of a bookmark mark gives back its utterance and the
/// bookmark's name, whatever that name holds.
pub proof fn lemma_bookmark_mark_roundtrip(utt: u64, name: Seq<char>)
    ensures
        spec_parse_mark(spec_bookmark_mark(utt as nat, name)) == Some(
            MarkView::Bookmark { utt, name },
        ),
{
    let n = spec_bookmark_mark(utt as nat, name);
    assert(n[0] == 'b');
    assert(!has_prefix(n, seq!['w', '_'])) by {
        if has_prefix(n, seq!['w', '_']) {
            assert(n.take(2)[0] == n[0]);
        }
    }
    assert(!has_prefix(n, seq!['e', 'n', 'd', '_'])) by {
        if has_prefix(n, seq!['e', 'n', 'd', '_']) {
            assert(n.take(4)[0] == n[0]);
        }
    }
    assert(n.take(3) =~= seq!['b', 'm', '_']);
    assert(n.skip(3) =~= dec(utt as nat) + seq!['_'] + name);
    lemma_dec_no_underscore(utt as nat);
    lemma_split_first_concat(dec(utt as nat), '_', name);
    lemma_parse_dec(utt as nat, u64::MAX as nat);
}

// ---------------------------------------------------------------------------
// The utterance document
// ---------------------------------------------------------------------------

/// `<mark name="NAME"/>`.
pub open spec fn mark_tag(name: Seq<char>) -> Seq<char> {
    "<mark name=\""@ + name + "\"/>"@
}

/// One mark per queued bookmark, in order.
pub open spec fn bookmarks_part(utt: u64, bs: Seq<Seq<char>>) -> Seq<char>
    decreases bs.len(),
{
    if bs.len() == 0 {
        Seq::empty()
    } else {
        bookmarks_part(utt, bs.drop_last()) + mark_tag(
            escape(spec_bookmark_mark(utt as nat, bs.last())),
        )
    }
}

/// The `k`-th word: a space before every word but the first, the escaped
/// word, then its word-boundary mark.
pub open spec fn word_part(utt: u64, k: nat, w: Seq<char>) -> Seq<char> {
    (if k > 0 {
        seq![' ']
    } else {
        Seq::empty()
    }) + escape(w) + mark_tag(spec_word_mark(utt as nat, k))
}

/// The words, each followed by its mark.
pub open spec fn words_body(utt: u64, ws: Seq<Seq<char>>) -> Seq<char>
    decreases ws.len(),
{
    if ws.len() == 0 {
        Seq::empty()
    } else {
        words_body(utt, ws.drop_last()) + word_part(utt, (ws.len() - 1) as nat, ws.last())
    }
}

/// The opening of the document, up to and including the bookmarks.
pub open spec fn ssml_head(utt: u64, lang: Seq<char>, bs: Seq<Seq<char>>) -> Seq<char> {
    "<speak version=\"1.0\" xml:lang=\""@ + escape(lang) + "\">"@ + bookmarks_part(utt, bs)
}

/// The SSML for one utterance: the language, a mark per queued bookmark,
/// the words in a `<prosody>` element unless the prosody is the default, a
/// mark after each word, and the end mark.
pub open spec fn spec_utterance_ssml(
    utt: u64,
    text: Seq<char>,
    lang: Seq<char>,
    p: Prosody,
    bs: Seq<Seq<char>>,
) -> Seq<char> {
    ssml_head(utt, lang, bs) + (if is_default_prosody(p) {
        Seq::empty()
    } else {
        prosody_tag(p)
    }) + words_body(utt, words(text)) + (if is_default_prosody(p) {
        Seq::empty()
    } else {
        "</prosody>"@
    }) + mark_tag(spec_end_mark(utt as nat)) + "</speak>"@
}

/// The character sequences of a slice of strings.
pub open spec fn str_views(bs: Seq<&str>) -> Seq<Seq<char>> {
    bs.map_values(|b: &str| b@)
}

fn push_word(out: &mut String, cs: &Vec<char>, start: usize, end: usize, utt: u64, idx: u32)
    requires
        start <= end <= cs@.len(),
    ensures
        final(out)@ == old(out)@ + word_part(utt, idx as nat, cs@.subrange(start as int, end as int)),
{
    if idx > 0 {
        push_char(out, ' ');
    }
    push_escaped(out, cs, start, end);
    out.append("<mark name=\"");
    push_word_mark(out, utt, idx);
    out.append("\"/>");
    assert(final(out)@ =~= old(out)@ + word_part(utt, idx as nat, cs@.subrange(start as int, end as int)));
}

/// Build SSML for one utterance. Splits text on whitespace, inserts a
/// `<mark>` after every word. Returns `(ssml_string, word_count)`.
pub fn build_utterance_ssml(
    utt: u64,
    text: &str,
    lang: &str,
    prosody: Prosody,
    bookmarks_before: &[&str],
) -> (r: (String, u32))
    requires
        words(text@).len() <= u32::MAX,
    ensures
        r.0@ == spec_utterance_ssml(utt, text@, lang@, prosody, str_views(bookmarks_before@)),
        r.1 == words(text@).len(),
{
    let ghost bs = str_views(bookmarks_before@);
    let mut s = String::new();
    s.append("<speak version=\"1.0\" xml:lang=\"");
    let lang_escaped = xml_escape(lang);
    s.append(lang_escaped.as_str());
    s.append("\">");
    let ghost open = s@;
    assert(bs.take(0) =~= Seq::<Seq<char>>::empty());
    assert(s@ =~= open + bookmarks_part(utt, bs.take(0)));
    let mut i: usize = 0;
    while i < bookmarks_before.len()
        invariant
            i <= bookmarks_before@.len(),
            bs == str_views(bookmarks_before@),
            s@ == open + bookmarks_part(utt, bs.take(i as int)),
        decreases bookmarks_before.len() - i,
    {
        let b: &str = bookmarks_before[i];
        s.append("<mark name=\"");
        let m = bookmark_mark(utt, b);
        let e = xml_escape(m.as_str());
        s.append(e.as_str());
        s.append("\"/>");
        assert(bs.take(i + 1).drop_last() =~= bs.take(i as int));
        assert(bs.take(i + 1).last() == b@);
        assert(s@ =~= open + bookmarks_part(utt, bs.take(i + 1)));
        i = i + 1;
    }
    assert(bs.take(bookmarks_before@.len() as int) =~= bs);
    assert(s@ =~= ssml_head(utt, lang@, bs));
    let prosody_open_tag = prosody_open(prosody);
    match &prosody_open_tag {
        Some(open_tag) => {
            s.append(open_tag.as_str());
        },
        None => {},
    }
    let ghost pre = s@;
    assert(pre =~= ssml_head(utt, lang@, bs) + (if is_default_prosody(prosody) {
        Seq::empty()
    } else {
        prosody_tag(prosody)
    }));
    let cs = chars_of(text);
    let n = cs.len();
    let mut word_idx: u32 = 0;
    let mut in_word = false;
    let mut start: usize = 0;
    let mut j: usize = 0;
    assert(cs@.take(0) =~= Seq::<char>::empty());
    assert(s@ =~= pre + words_body(utt, scan_words(cs@.take(0)).0));
    while j < n
        invariant
            j <= n == cs@.len(),
            cs@ == text@,
            words(text@).len() <= u32::MAX,
            word_idx == scan_words(cs@.take(j as int)).0.len(),
            in_word == (scan_words(cs@.take(j as int)).1.len() > 0),
            in_word ==> start < j && scan_words(cs@.take(j as int)).1 == cs@.subrange(
                start as int,
                j as int,
            ),
            s@ == pre + words_body(utt, scan_words(cs@.take(j as int)).0),
        decreases n - j,
    {
        let c = cs[j];
        let ghost t = cs@.take(j + 1);
        let ghost st = scan_words(cs@.take(j as int));
        assert(t.drop_last() =~= cs@.take(j as int));
        assert(t.last() == c);
        if white_space(c) {
            if in_word {
                proof {
                    lemma_words_len_prefix(text@, j + 1);
                    assert(words(t).len() == word_idx + 1);
                }
                push_word(&mut s, &cs, start, j, utt, word_idx);
                proof {
                    let ws = st.0.push(st.1);
                    assert(ws.drop_last() =~= st.0);
                    assert(s@ =~= pre + words_body(utt, ws));
                }
                word_idx = word_idx + 1;
                in_word = false;
            }
        } else {
            if !in_word {
                start = j;
                in_word = true;
            }
            assert(scan_words(t).1 =~= cs@.subrange(start as int, j + 1));
        }
        j = j + 1;
    }
    assert(cs@.take(n as int) =~= text@);
    if in_word {
        let ghost st = scan_words(text@);
        push_word(&mut s, &cs, start, n, utt, word_idx);
        proof {
            let ws = st.0.push(st.1);
            assert(ws.drop_last() =~= st.0);
            assert(s@ =~= pre + words_body(utt, words(text@)));
        }
        word_idx = word_idx + 1;
    }
    assert(s@ =~= pre + words_body(utt, words(text@)));
    if prosody_open_tag.is_some() {
        s.append("</prosody>");
    }
    s.append("<mark name=\"");
    push_end_mark(&mut s, utt);
    s.append("\"/>");
    s.append("</speak>");
    assert(s@ =~= spec_utterance_ssml(utt, text@, lang@, prosody, bs));
    (s, word_idx)
}

} // verus!
