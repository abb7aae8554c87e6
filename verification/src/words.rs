//! Splitting text into words at Unicode whitespace, as `str::split_whitespace`.
use vstd::prelude::*;

use crate::text::{is_white_space, lemma_ascii_white_space};

verus! {

/// The words that a left-to-right scan of `s` has finished, and the word
/// that it is in the middle of (empty between words).
pub open spec fn scan_words(s: Seq<char>) -> (Seq<Seq<char>>, Seq<char>)
    decreases s.len(),
{
    if s.len() == 0 {
        (Seq::empty(), Seq::empty())
    } else {
        let st = scan_words(s.drop_last());
        let c = s.last();
        if is_white_space(c) {
            if st.1.len() > 0 {
                (st.0.push(st.1), Seq::empty())
            } else {
                (st.0, Seq::empty())
            }
        } else {
            (st.0, st.1.push(c))
        }
    }
}

/// The words of `s`: its maximal runs of characters that are not
/// whitespace, in order.
pub open spec fn words(s: Seq<char>) -> Seq<Seq<char>> {
    let st = scan_words(s);
    if st.1.len() > 0 {
        st.0.push(st.1)
    } else {
        st.0
    }
}

/// `s` with its whitespace removed.
pub open spec fn non_white(s: Seq<char>) -> Seq<char>
    decreases s.len(),
{
    if s.len() == 0 {
        Seq::empty()
    } else if is_white_space(s.last()) {
        non_white(s.drop_last())
    } else {
        non_white(s.drop_last()).push(s.last())
    }
}

/// The words joined with nothing between them.
pub open spec fn join(ws: Seq<Seq<char>>) -> Seq<char>
    decreases ws.len(),
{
    if ws.len() == 0 {
        Seq::empty()
    } else {
        join(ws.drop_last()) + ws.last()
    }
}

/// `i` is where a word of `s` starts: a non-whitespace character at the
/// start of `s` or right after whitespace.
pub open spec fn word_start(s: Seq<char>, i: int) -> bool {
    &&& 0 <= i < s.len()
    &&& !is_white_space(s[i])
    &&& (i == 0 || is_white_space(s[i - 1]))
}

/// The number of places where a word of `s` starts.
pub open spec fn count_word_starts(s: Seq<char>) -> nat
    decreases s.len(),
{
    if s.len() == 0 {
        0
    } else {
        count_word_starts(s.drop_last()) + (if word_start(s, s.len() - 1) {
            1nat
        } else {
            0nat
        })
    }
}

/// A word holds at least one character and no whitespace.
pub open spec fn is_word(w: Seq<char>) -> bool {
    w.len() > 0 && forall|j: int| 0 <= j < w.len() ==> !is_white_space(#[trigger] w[j])
}

proof fn lemma_scan(s: Seq<char>)
    ensures
        forall|k: int| 0 <= k < scan_words(s).0.len() ==> is_word(#[trigger] scan_words(s).0[k]),
        forall|j: int|
            0 <= j < scan_words(s).1.len() ==> !is_white_space(#[trigger] scan_words(s).1[j]),
        join(scan_words(s).0) + scan_words(s).1 == non_white(s),
        scan_words(s).0.len() + (if scan_words(s).1.len() > 0 {
            1nat
        } else {
            0nat
        }) == count_word_starts(s),
        s.len() > 0 && is_white_space(s.last()) ==> scan_words(s).1.len() == 0,
        s.len() > 0 && !is_white_space(s.last()) ==> scan_words(s).1.len() > 0,
    decreases s.len(),
{
    if s.len() > 0 {
        let p = s.drop_last();
        lemma_scan(p);
        let st = scan_words(p);
        let c = s.last();
        assert(s[s.len() - 1] == c);
        if s.len() > 1 {
            assert(p.last() == s[s.len() - 2]);
        }
        if is_white_space(c) {
            if st.1.len() > 0 {
                let ws = st.0.push(st.1);
                assert(ws.drop_last() =~= st.0);
                assert forall|k: int| 0 <= k < ws.len() implies is_word(#[trigger] ws[k]) by {
                    if k < st.0.len() {
                        assert(ws[k] == st.0[k]);
                    }
                }
            }
        } else {
            let cur = st.1.push(c);
            assert forall|j: int| 0 <= j < cur.len() implies !is_white_space(#[trigger] cur[j]) by {
                if j < st.1.len() {
                    assert(cur[j] == st.1[j]);
                }
            }
            assert(join(st.0) + cur =~= (join(st.0) + st.1).push(c));
        }
    } else {
        assert(join(Seq::<Seq<char>>::empty()) =~= Seq::<char>::empty());
    }
}

/// What splitting at whitespace gives: words that are non-empty and hold
/// no whitespace, that joined again give the text without its whitespace,
/// and as many of them as there are places where a word starts.
pub proof fn lemma_words(s: Seq<char>)
    ensures
        forall|k: int| 0 <= k < words(s).len() ==> is_word(#[trigger] words(s)[k]),
        join(words(s)) == non_white(s),
        words(s).len() == count_word_starts(s),
{
    lemma_scan(s);
    let st = scan_words(s);
    if st.1.len() > 0 {
        let ws = st.0.push(st.1);
        assert(ws.drop_last() =~= st.0);
        assert forall|k: int| 0 <= k < ws.len() implies is_word(#[trigger] ws[k]) by {
            if k < st.0.len() {
                assert(ws[k] == st.0[k]);
            }
        }
    } else {
        assert(join(st.0) + st.1 =~= join(st.0));
    }
}

/// Reading more text never takes words away.
pub proof fn lemma_words_len_prefix(s: Seq<char>, i: int)
    requires
        0 <= i <= s.len(),
    ensures
        words(s.take(i)).len() <= words(s).len(),
    decreases s.len() - i,
{
    if i < s.len() {
        lemma_words_len_prefix(s, i + 1);
        let t = s.take(i + 1);
        assert(t.drop_last() =~= s.take(i));
        assert(t.last() == s[i]);
    } else {
        assert(s.take(i) =~= s);
    }
}

/// The words joined with one space between each two of them.
pub open spec fn spaced(ws: Seq<Seq<char>>) -> Seq<char>
    decreases ws.len(),
{
    if ws.len() == 0 {
        Seq::empty()
    } else if ws.len() == 1 {
        ws[0]
    } else {
        spaced(ws.drop_last()) + seq![' '] + ws.last()
    }
}

/// A scan that has just passed whitespace goes on over `b` as a fresh scan
/// of `b` would, keeping the words it had.
proof fn lemma_scan_after_break(p: Seq<char>, b: Seq<char>)
    requires
        scan_words(p).1.len() == 0,
    ensures
        scan_words(p + b) == (scan_words(p).0 + scan_words(b).0, scan_words(b).1),
    decreases b.len(),
{
    if b.len() == 0 {
        assert(p + b =~= p);
        assert(scan_words(p).0 + Seq::<Seq<char>>::empty() =~= scan_words(p).0);
    } else {
        let bp = b.drop_last();
        lemma_scan_after_break(p, bp);
        assert((p + b).drop_last() =~= p + bp);
        assert((p + b).last() == b.last());
        let sb = scan_words(bp);
        if is_white_space(b.last()) && sb.1.len() > 0 {
            assert((scan_words(p).0 + sb.0).push(sb.1) =~= scan_words(p).0 + sb.0.push(sb.1));
        }
    }
}

/// Text without whitespace is scanned as one unfinished word.
proof fn lemma_scan_word(w: Seq<char>)
    requires
        forall|j: int| 0 <= j < w.len() ==> !is_white_space(#[trigger] w[j]),
    ensures
        scan_words(w) == (Seq::<Seq<char>>::empty(), w),
    decreases w.len(),
{
    if w.len() > 0 {
        let wp = w.drop_last();
        assert forall|j: int| 0 <= j < wp.len() implies !is_white_space(#[trigger] wp[j]) by {
            assert(wp[j] == w[j]);
        }
        lemma_scan_word(wp);
        assert(!is_white_space(w[w.len() - 1]));
        assert(wp.push(w.last()) =~= w);
    }
}

/// A non-empty text without whitespace is one word: itself.
pub proof fn lemma_words_of_word(w: Seq<char>)
    requires
        is_word(w),
    ensures
        words(w) == seq![w],
{
    lemma_scan_word(w);
    assert(Seq::<Seq<char>>::empty().push(w) =~= seq![w]);
}

/// A non-empty text of printable ASCII characters other than the space
/// (such as `3.14`, `e-mail` or `a,b`) is one word, kept whole.
pub proof fn lemma_words_printable_ascii(w: Seq<char>)
    requires
        w.len() > 0,
        forall|j: int| 0 <= j < w.len() ==> 0x21 <= (#[trigger] w[j] as u32) <= 0x7e,
    ensures
        words(w) == seq![w],
        non_white(w) == w,
{
    assert forall|j: int| 0 <= j < w.len() implies !is_white_space(#[trigger] w[j]) by {
        lemma_ascii_white_space(w[j]);
    }
    lemma_words_of_word(w);
    lemma_words(w);
    assert(join(seq![w]) =~= w) by {
        let e = Seq::<Seq<char>>::empty();
        assert(seq![w].drop_last() =~= e);
        assert(seq![w].last() == w);
        assert(join(e) =~= Seq::<char>::empty());
        assert(Seq::<char>::empty() + w =~= w);
    }
}

/// Splitting at a whitespace character: the words of `a`, then those of `b`.
pub proof fn lemma_words_split(a: Seq<char>, c: char, b: Seq<char>)
    requires
        is_white_space(c),
    ensures
        words(a + seq![c] + b) == words(a) + words(b),
{
    let p = a + seq![c];
    assert(p.drop_last() =~= a);
    assert(p.last() == c);
    assert(scan_words(p).0 == words(a));
    lemma_scan_after_break(p, b);
    let sb = scan_words(b);
    if sb.1.len() > 0 {
        assert((words(a) + sb.0).push(sb.1) =~= words(a) + sb.0.push(sb.1));
    }
}

/// Words joined with single spaces split back into the same words.
pub proof fn lemma_words_spaced(ws: Seq<Seq<char>>)
    requires
        forall|k: int| 0 <= k < ws.len() ==> is_word(#[trigger] ws[k]),
    ensures
        words(spaced(ws)) == ws,
    decreases ws.len(),
{
    if ws.len() == 0 {
        assert(words(Seq::<char>::empty()) =~= Seq::<Seq<char>>::empty());
    } else if ws.len() == 1 {
        lemma_words_of_word(ws[0]);
        assert(seq![ws[0]] =~= ws);
    } else {
        let init = ws.drop_last();
        assert forall|k: int| 0 <= k < init.len() implies is_word(#[trigger] init[k]) by {
            assert(init[k] == ws[k]);
        }
        lemma_words_spaced(init);
        lemma_ascii_white_space(' ');
        lemma_words_split(spaced(init), ' ', ws.last());
        assert(is_word(ws[ws.len() - 1]));
        lemma_words_of_word(ws.last());
        assert(init + seq![ws.last()] =~= ws);
    }
}

} // verus!
