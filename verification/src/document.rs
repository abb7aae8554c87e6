//! Reading the marks back out of an utterance's SSML: the names of its
//! `<mark name="..."/>` tags, in order, route to the utterance's bookmarks,
//! its words and its end.
use vstd::prelude::*;

use crate::ssml::{
    bookmarks_part, escape, is_markup_char, lemma_bookmark_mark_roundtrip, lemma_end_mark_roundtrip,
    lemma_escape_no_markup, lemma_unescape_escape, lemma_unescape_plain,
    lemma_word_mark_roundtrip, mark_tag, prosody_tag, spec_bookmark_mark, spec_end_mark,
    spec_parse_mark, spec_pitch_attr, spec_utterance_ssml, spec_word_mark, ssml_head, unescape,
    word_part, words_body, is_default_prosody, MarkView, Prosody,
};
use crate::rate::spec_rate_percent;
use crate::text::{dec, is_digit, lemma_dec};
use crate::words::words;

verus! {

/// `<mark name="`.
pub open spec fn mark_open() -> Seq<char> {
    seq!['<', 'm', 'a', 'r', 'k', ' ', 'n', 'a', 'm', 'e', '=', '"']
}

/// The names of the `<mark name="..."/>` tags in `s`, in order: each name
/// runs from the opening quote to the next `"`.
pub open spec fn scan_marks(s: Seq<char>) -> Seq<Seq<char>>
    decreases s.len(), 1int,
{
    if s.len() == 0 {
        Seq::empty()
    } else if mark_open().len() <= s.len() && s.take(12) == mark_open() {
        read_name(s.skip(12), Seq::empty())
    } else {
        scan_marks(s.drop_first())
    }
}

/// The rest of a mark name already begun as `acc`, then the marks after it.
pub open spec fn read_name(s: Seq<char>, acc: Seq<char>) -> Seq<Seq<char>>
    decreases s.len(), 0int,
{
    if s.len() == 0 {
        Seq::empty()
    } else if s[0] == '"' {
        seq![acc] + scan_marks(s.drop_first())
    } else {
        read_name(s.drop_first(), acc.push(s[0]))
    }
}

/// `s` holds no `<`.
pub open spec fn no_lt(s: Seq<char>) -> bool {
    forall|i: int| 0 <= i < s.len() ==> #[trigger] s[i] != '<'
}

/// `s` holds no `"`.
pub open spec fn no_quote(s: Seq<char>) -> bool {
    forall|i: int| 0 <= i < s.len() ==> #[trigger] s[i] != '"'
}

/// Text without `<` holds no mark.
proof fn lemma_scan_plain(a: Seq<char>, b: Seq<char>)
    requires
        no_lt(a),
    ensures
        scan_marks(a + b) == scan_marks(b),
    decreases a.len(),
{
    if a.len() > 0 {
        let x = a + b;
        assert(x[0] == a[0]);
        assert(!(mark_open().len() <= x.len() && x.take(12) == mark_open())) by {
            if x.len() >= 12 && x.take(12) == mark_open() {
                assert(x.take(12)[0] == x[0]);
            }
        }
        assert(x.drop_first() =~= a.drop_first() + b);
        assert(no_lt(a.drop_first())) by {
            assert forall|i: int| 0 <= i < a.drop_first().len() implies #[trigger] a.drop_first()[i]
                != '<' by {
                assert(a.drop_first()[i] == a[i + 1]);
            }
        }
        lemma_scan_plain(a.drop_first(), b);
    } else {
        assert(a + b =~= b);
    }
}

/// A tag other than a mark, with no other `<` in it, holds no mark.
proof fn lemma_scan_tag(a: Seq<char>, b: Seq<char>)
    requires
        a.len() >= 2,
        a[0] == '<',
        a[1] != 'm',
        no_lt(a.drop_first()),
    ensures
        scan_marks(a + b) == scan_marks(b),
{
    let x = a + b;
    assert(x[1] == a[1]);
    assert(!(mark_open().len() <= x.len() && x.take(12) == mark_open())) by {
        if x.len() >= 12 && x.take(12) == mark_open() {
            assert(x.take(12)[1] == x[1]);
        }
    }
    assert(x.drop_first() =~= a.drop_first() + b);
    lemma_scan_plain(a.drop_first(), b);
}

proof fn lemma_read_name(x: Seq<char>, acc: Seq<char>, c: Seq<char>)
    requires
        no_quote(x),
    ensures
        read_name(x + seq!['"'] + c, acc) == seq![acc + x] + scan_marks(c),
    decreases x.len(),
{
    let s = x + seq!['"'] + c;
    if x.len() == 0 {
        assert(s[0] == '"');
        assert(s.drop_first() =~= c);
        assert(acc + x =~= acc);
    } else {
        assert(s[0] == x[0]);
        assert(s.drop_first() =~= x.drop_first() + seq!['"'] + c);
        assert(no_quote(x.drop_first())) by {
            assert forall|i: int| 0 <= i < x.drop_first().len() implies #[trigger] x.drop_first()[i]
                != '"' by {
                assert(x.drop_first()[i] == x[i + 1]);
            }
        }
        lemma_read_name(x.drop_first(), acc.push(x[0]), c);
        assert(acc.push(x[0]) + x.drop_first() =~= acc + x);
    }
}

/// A mark tag whose name holds no `"` yields that name.
proof fn lemma_scan_mark(x: Seq<char>, b: Seq<char>)
    requires
        no_quote(x),
    ensures
        scan_marks(mark_tag(x) + b) == seq![x] + scan_marks(b),
{
    reveal_strlit("<mark name=\"");
    reveal_strlit("\"/>");
    let s = mark_tag(x) + b;
    assert("<mark name=\""@ =~= mark_open());
    assert("\"/>"@ =~= seq!['"', '/', '>']);
    assert(s.take(12) =~= mark_open());
    let tail = seq!['/', '>'];
    assert(s.skip(12) =~= x + seq!['"'] + (tail + b));
    lemma_read_name(x, Seq::empty(), tail + b);
    assert(Seq::<char>::empty() + x =~= x);
    assert(no_lt(tail));
    lemma_scan_plain(tail, b);
}

proof fn lemma_dec_plain(n: nat)
    ensures
        forall|i: int|
            0 <= i < dec(n).len() ==> #[trigger] dec(n)[i] != '<' && dec(n)[i] != '"' && dec(n)[i]
                != '&',
{
    lemma_dec(n);
    assert forall|i: int| 0 <= i < dec(n).len() implies #[trigger] dec(n)[i] != '<' && dec(n)[i]
        != '"' && dec(n)[i] != '&' by {
        assert(is_digit(dec(n)[i]));
    }
}

/// The names of the bookmark marks of an utterance, as they stand in its document.
pub open spec fn bookmark_tag_names(utt: u64, bs: Seq<Seq<char>>) -> Seq<Seq<char>> {
    bs.map_values(|b: Seq<char>| escape(spec_bookmark_mark(utt as nat, b)))
}

/// The names of the word marks of an utterance of `n` words.
pub open spec fn word_tag_names(utt: u64, n: nat) -> Seq<Seq<char>> {
    Seq::new(n, |k: int| spec_word_mark(utt as nat, k as nat))
}

proof fn lemma_scan_bookmarks(utt: u64, bs: Seq<Seq<char>>, b: Seq<char>)
    ensures
        scan_marks(bookmarks_part(utt, bs) + b) == bookmark_tag_names(utt, bs) + scan_marks(b),
    decreases bs.len(),
{
    if bs.len() == 0 {
        assert(bookmarks_part(utt, bs) + b =~= b);
        assert(bookmark_tag_names(utt, bs) + scan_marks(b) =~= scan_marks(b));
    } else {
        let p = bs.drop_last();
        let x = escape(spec_bookmark_mark(utt as nat, bs.last()));
        lemma_escape_no_markup(spec_bookmark_mark(utt as nat, bs.last()));
        assert(no_quote(x)) by {
            assert forall|i: int| 0 <= i < x.len() implies #[trigger] x[i] != '"' by {
                assert(!is_markup_char(x[i]));
            }
        }
        assert(bookmarks_part(utt, bs) + b =~= bookmarks_part(utt, p) + (mark_tag(x) + b));
        lemma_scan_bookmarks(utt, p, mark_tag(x) + b);
        lemma_scan_mark(x, b);
        assert(bookmark_tag_names(utt, bs) =~= bookmark_tag_names(utt, p).push(x));
        assert(bookmark_tag_names(utt, p) + (seq![x] + scan_marks(b)) =~= bookmark_tag_names(utt, bs)
            + scan_marks(b));
    }
}

proof fn lemma_word_mark_plain(utt: u64, k: nat)
    ensures
        no_quote(spec_word_mark(utt as nat, k)),
        forall|i: int|
            0 <= i < spec_word_mark(utt as nat, k).len() ==> #[trigger] spec_word_mark(
                utt as nat,
                k,
            )[i] != '&',
{
    let m = spec_word_mark(utt as nat, k);
    lemma_dec_plain(utt as nat);
    lemma_dec_plain(k);
    let a = dec(utt as nat);
    let c = dec(k);
    assert forall|i: int| 0 <= i < m.len() implies #[trigger] m[i] != '"' && m[i] != '&' by {
        if i >= 2 && i < 2 + a.len() {
            assert(m[i] == a[i - 2]);
        } else if i >= 3 + a.len() {
            assert(m[i] == c[i - 3 - a.len()]);
        }
    }
}

proof fn lemma_end_mark_plain(utt: u64)
    ensures
        no_quote(spec_end_mark(utt as nat)),
        forall|i: int|
            0 <= i < spec_end_mark(utt as nat).len() ==> #[trigger] spec_end_mark(utt as nat)[i]
                != '&',
{
    let m = spec_end_mark(utt as nat);
    lemma_dec_plain(utt as nat);
    let a = dec(utt as nat);
    assert forall|i: int| 0 <= i < m.len() implies #[trigger] m[i] != '"' && m[i] != '&' by {
        if i >= 4 {
            assert(m[i] == a[i - 4]);
        }
    }
}

proof fn lemma_scan_words(utt: u64, ws: Seq<Seq<char>>, b: Seq<char>)
    ensures
        scan_marks(words_body(utt, ws) + b) == word_tag_names(utt, ws.len()) + scan_marks(b),
    decreases ws.len(),
{
    if ws.len() == 0 {
        assert(words_body(utt, ws) + b =~= b);
        assert(word_tag_names(utt, 0) + scan_marks(b) =~= scan_marks(b));
    } else {
        let p = ws.drop_last();
        let k = (ws.len() - 1) as nat;
        let w = ws.last();
        let sp: Seq<char> = if k > 0 {
            seq![' ']
        } else {
            Seq::empty()
        };
        let name = spec_word_mark(utt as nat, k);
        lemma_escape_no_markup(w);
        let plain = sp + escape(w);
        assert(no_lt(plain)) by {
            assert forall|i: int| 0 <= i < plain.len() implies #[trigger] plain[i] != '<' by {
                if i >= sp.len() {
                    assert(plain[i] == escape(w)[i - sp.len()]);
                    assert(!is_markup_char(escape(w)[i - sp.len()]));
                }
            }
        }
        lemma_word_mark_plain(utt, k);
        assert(word_part(utt, k, w) == plain + mark_tag(name));
        assert(words_body(utt, ws) + b =~= words_body(utt, p) + (plain + (mark_tag(name) + b)));
        lemma_scan_words(utt, p, plain + (mark_tag(name) + b));
        lemma_scan_plain(plain, mark_tag(name) + b);
        lemma_scan_mark(name, b);
        assert(word_tag_names(utt, ws.len()) =~= word_tag_names(utt, k).push(name));
        assert(word_tag_names(utt, k) + (seq![name] + scan_marks(b)) =~= word_tag_names(
            utt,
            ws.len(),
        ) + scan_marks(b));
    }
}

proof fn lemma_literal_tags()
    ensures
        no_lt("\">"@),
        "</prosody>"@.len() >= 2 && "</prosody>"@[0] == '<' && "</prosody>"@[1] != 'm' && no_lt(
            "</prosody>"@.drop_first(),
        ),
        "</speak>"@.len() >= 2 && "</speak>"@[0] == '<' && "</speak>"@[1] != 'm' && no_lt(
            "</speak>"@.drop_first(),
        ),
        "<speak version=\"1.0\" xml:lang=\""@.len() >= 2 && "<speak version=\"1.0\" xml:lang=\""@[0]
            == '<' && "<speak version=\"1.0\" xml:lang=\""@[1] != 'm' && no_lt(
            "<speak version=\"1.0\" xml:lang=\""@.drop_first(),
        ),
        "<prosody rate=\""@.len() >= 2 && "<prosody rate=\""@[0] == '<' && "<prosody rate=\""@[1]
            != 'm' && no_lt("<prosody rate=\""@.drop_first()),
        no_lt("%\" volume=\""@),
        no_lt("\" pitch=\""@),
{
    reveal_strlit("\">");
    reveal_strlit("</prosody>");
    reveal_strlit("</speak>");
    reveal_strlit("<speak version=\"1.0\" xml:lang=\"");
    reveal_strlit("<prosody rate=\"");
    reveal_strlit("%\" volume=\"");
    reveal_strlit("\" pitch=\"");
}

proof fn lemma_concat_no_lt(a: Seq<char>, b: Seq<char>)
    requires
        no_lt(a),
        no_lt(b),
    ensures
        no_lt(a + b),
{
    assert forall|i: int| 0 <= i < (a + b).len() implies #[trigger] (a + b)[i] != '<' by {
        if i < a.len() {
            assert((a + b)[i] == a[i]);
        } else {
            assert((a + b)[i] == b[i - a.len()]);
        }
    }
}

proof fn lemma_scan_tag_parts(t: Seq<char>, mid: Seq<char>, b: Seq<char>)
    requires
        t.len() >= 2,
        t[0] == '<',
        t[1] != 'm',
        no_lt(t.drop_first()),
        no_lt(mid),
    ensures
        scan_marks(t + mid + b) == scan_marks(b),
{
    let a = t + mid;
    assert(a.drop_first() =~= t.drop_first() + mid);
    lemma_concat_no_lt(t.drop_first(), mid);
    assert(a[0] == t[0] && a[1] == t[1]);
    lemma_scan_tag(a, b);
}

proof fn lemma_no_lt_signed(p: int)
    ensures
        no_lt(spec_pitch_attr(p)),
{
    let s = spec_pitch_attr(p);
    if p >= 0 {
        lemma_dec_plain(p as nat);
        let d = dec(p as nat);
        assert forall|i: int| 0 <= i < s.len() implies #[trigger] s[i] != '<' by {
            if i >= 1 && i < 1 + d.len() {
                assert(s[i] == d[i - 1]);
            }
        }
    } else {
        lemma_dec_plain((-p) as nat);
        let d = dec((-p) as nat);
        assert forall|i: int| 0 <= i < s.len() implies #[trigger] s[i] != '<' by {
            if i >= 1 && i < 1 + d.len() {
                assert(s[i] == d[i - 1]);
            }
        }
    }
}

proof fn lemma_scan_prosody(p: Prosody, b: Seq<char>)
    ensures
        scan_marks(prosody_tag(p) + b) == scan_marks(b),
{
    lemma_literal_tags();
    let r = dec(spec_rate_percent(p.rate_adj as int) as nat);
    let v = dec(p.volume as nat);
    let pa = spec_pitch_attr(p.pitch_adj as int);
    lemma_dec_plain(spec_rate_percent(p.rate_adj as int) as nat);
    lemma_dec_plain(p.volume as nat);
    lemma_no_lt_signed(p.pitch_adj as int);
    assert(no_lt(r));
    assert(no_lt(v));
    let mid = r + "%\" volume=\""@ + v + "\" pitch=\""@ + pa + "\">"@;
    lemma_concat_no_lt(r, "%\" volume=\""@);
    lemma_concat_no_lt(r + "%\" volume=\""@, v);
    lemma_concat_no_lt(r + "%\" volume=\""@ + v, "\" pitch=\""@);
    lemma_concat_no_lt(r + "%\" volume=\""@ + v + "\" pitch=\""@, pa);
    lemma_concat_no_lt(r + "%\" volume=\""@ + v + "\" pitch=\""@ + pa, "\">"@);
    assert(prosody_tag(p) + b =~= "<prosody rate=\""@ + mid + b);
    lemma_scan_tag_parts("<prosody rate=\""@, mid, b);
}

/// The names of the mark tags of an utterance's SSML, in order: one per
/// queued bookmark, one per word, then the end mark.
pub proof fn lemma_document_marks(
    utt: u64,
    text: Seq<char>,
    lang: Seq<char>,
    p: Prosody,
    bs: Seq<Seq<char>>,
)
    ensures
        scan_marks(spec_utterance_ssml(utt, text, lang, p, bs)) == bookmark_tag_names(utt, bs)
            + word_tag_names(utt, words(text).len()) + seq![spec_end_mark(utt as nat)],
{
    lemma_literal_tags();
    let open = "<speak version=\"1.0\" xml:lang=\""@;
    let close = "\">"@;
    let pro: Seq<char> = if is_default_prosody(p) {
        Seq::empty()
    } else {
        prosody_tag(p)
    };
    let unpro: Seq<char> = if is_default_prosody(p) {
        Seq::empty()
    } else {
        "</prosody>"@
    };
    let body = words_body(utt, words(text));
    let endm = mark_tag(spec_end_mark(utt as nat));
    let fin = "</speak>"@;
    let bp = bookmarks_part(utt, bs);
    let le = escape(lang);
    lemma_escape_no_markup(lang);
    assert(no_lt(le)) by {
        assert forall|i: int| 0 <= i < le.len() implies #[trigger] le[i] != '<' by {
            assert(!is_markup_char(le[i]));
        }
    }
    lemma_concat_no_lt(le, close);
    let doc = spec_utterance_ssml(utt, text, lang, p, bs);
    let after_fin: Seq<char> = Seq::empty();
    let r5 = fin + after_fin;
    let r4 = endm + r5;
    let r3 = unpro + r4;
    let r2 = body + r3;
    let r1 = pro + r2;
    let r0 = bp + r1;
    assert(doc =~= open + (le + close) + r0);
    // the closing tag and the end of the document
    assert(fin.drop_first() =~= fin.drop_first() + Seq::<char>::empty());
    lemma_scan_tag(fin, after_fin);
    assert(scan_marks(after_fin) =~= Seq::<Seq<char>>::empty());
    lemma_end_mark_plain(utt);
    lemma_scan_mark(spec_end_mark(utt as nat), r5);
    if is_default_prosody(p) {
        assert(r3 =~= r4);
        assert(r1 =~= r2);
    } else {
        lemma_scan_tag("</prosody>"@, r4);
        lemma_scan_prosody(p, r2);
    }
    lemma_scan_words(utt, words(text), r3);
    lemma_scan_bookmarks(utt, bs, r1);
    lemma_scan_tag_parts(open, le + close, r0);
    assert(bookmark_tag_names(utt, bs) + (word_tag_names(utt, words(text).len()) + (seq![
        spec_end_mark(utt as nat),
    ] + Seq::<Seq<char>>::empty())) =~= bookmark_tag_names(utt, bs) + word_tag_names(
        utt,
        words(text).len(),
    ) + seq![spec_end_mark(utt as nat)]);
}

/// Every mark of an utterance's SSML routes back to the utterance: read out
/// in order and unescaped, its mark names parse to the queued bookmarks, then
/// the words by index, then the end.
pub proof fn lemma_document_marks_parse(
    utt: u64,
    text: Seq<char>,
    lang: Seq<char>,
    p: Prosody,
    bs: Seq<Seq<char>>,
)
    requires
        words(text).len() <= u32::MAX,
    ensures
        ({
            let names = scan_marks(spec_utterance_ssml(utt, text, lang, p, bs));
            let n = words(text).len();
            &&& names.len() == bs.len() + n + 1
            &&& forall|i: int|
                0 <= i < bs.len() ==> spec_parse_mark(unescape(#[trigger] names[i])) == Some(
                    MarkView::Bookmark { utt, name: bs[i] },
                )
            &&& forall|k: int|
                0 <= k < n ==> spec_parse_mark(unescape(#[trigger] names[bs.len() + k])) == Some(
                    MarkView::Word { utt, idx: k as u32 },
                )
            &&& spec_parse_mark(unescape(names[(bs.len() + n) as int])) == Some(MarkView::End { utt })
        }),
{
    lemma_document_marks(utt, text, lang, p, bs);
    let names = scan_marks(spec_utterance_ssml(utt, text, lang, p, bs));
    let n = words(text).len();
    let bn = bookmark_tag_names(utt, bs);
    let wn = word_tag_names(utt, n);
    assert forall|i: int| 0 <= i < bs.len() implies spec_parse_mark(unescape(#[trigger] names[i]))
        == Some(MarkView::Bookmark { utt, name: bs[i] }) by {
        assert(names[i] == bn[i]);
        lemma_unescape_escape(spec_bookmark_mark(utt as nat, bs[i]));
        lemma_bookmark_mark_roundtrip(utt, bs[i]);
    }
    assert forall|k: int| 0 <= k < n implies spec_parse_mark(
        unescape(#[trigger] names[bs.len() + k]),
    ) == Some(MarkView::Word { utt, idx: k as u32 }) by {
        assert(names[bs.len() + k] == wn[k]);
        lemma_word_mark_plain(utt, k as nat);
        lemma_unescape_plain(spec_word_mark(utt as nat, k as nat));
        lemma_word_mark_roundtrip(utt, k as u32);
    }
    assert(names[(bs.len() + n) as int] == spec_end_mark(utt as nat));
    lemma_end_mark_plain(utt);
    lemma_unescape_plain(spec_end_mark(utt as nat));
    lemma_end_mark_roundtrip(utt);
}

} // verus!
