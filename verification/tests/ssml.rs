use sapience::ssml::{
    rate_percent, bookmark_mark, build_utterance_ssml, end_mark, next_utterance_id, parse_mark, pitch_attr,
    prosody_open, word_mark, xml_escape, ParsedMark, Prosody, FIRST_UTTERANCE_ID,
};

#[test]
fn rate_percent_table() {
    assert_eq!(rate_percent(0), 100);
    assert_eq!(rate_percent(1), 110);
    assert_eq!(rate_percent(10), 259);
    assert_eq!(rate_percent(-1), 91);
    assert_eq!(rate_percent(-10), 39);
}

#[test]
fn pitch_attr_signs() {
    assert_eq!(pitch_attr(0), "+0st");
    assert_eq!(pitch_attr(3), "+3st");
    assert_eq!(pitch_attr(-2), "-2st");
}

#[test]
fn default_prosody_emits_no_tag() {
    assert!(prosody_open(Prosody::defaults()).is_none());
}

#[test]
fn nondefault_prosody_emits_all_three_attrs() {
    let s = prosody_open(Prosody {
        rate_adj: 1,
        volume: 80,
        pitch_adj: -2,
    })
    .unwrap();
    assert!(s.contains(r#"rate="110%""#));
    assert!(s.contains(r#"volume="80""#));
    assert!(s.contains(r#"pitch="-2st""#));
}

#[test]
fn xml_escape_basics() {
    assert_eq!(xml_escape(r#"<a&b>"x'y"#), "&lt;a&amp;b&gt;&quot;x&apos;y");
}

#[test]
fn build_utterance_with_defaults() {
    let (s, n) = build_utterance_ssml(42, "hello world", "en-US", Prosody::defaults(), &[]);
    assert_eq!(n, 2);
    assert!(s.contains(r#"xml:lang="en-US""#));
    assert!(s.contains(r#"<mark name="w_42_0"/>"#));
    assert!(s.contains(r#"<mark name="w_42_1"/>"#));
    assert!(s.contains(r#"<mark name="end_42"/>"#));
    assert!(!s.contains("<prosody"));
}

#[test]
fn build_utterance_with_prosody_and_bookmarks() {
    let (s, n) = build_utterance_ssml(
        7,
        "hi",
        "nl-NL",
        Prosody {
            rate_adj: -1,
            volume: 50,
            pitch_adj: 0,
        },
        &["chapter1"],
    );
    assert_eq!(n, 1);
    assert!(s.contains(r#"<mark name="bm_7_chapter1"/>"#));
    assert!(s.contains(r#"<prosody"#));
    assert!(s.contains(r#"</prosody>"#));
}

#[test]
fn parse_mark_roundtrip() {
    assert_eq!(
        parse_mark("w_3_5"),
        Some(ParsedMark::Word { utt: 3, idx: 5 })
    );
    assert_eq!(parse_mark("end_9"), Some(ParsedMark::End { utt: 9 }));
    assert_eq!(
        parse_mark("bm_2_x"),
        Some(ParsedMark::Bookmark {
            utt: 2,
            name: "x".into()
        })
    );
    assert!(parse_mark("garbage").is_none());
}

// ---------------------------------------------------------------------------
// Further cases
// ---------------------------------------------------------------------------

#[test]
fn rate_percent_agrees_with_the_floating_point_mapping() {
    for r in -70..=220 {
        let expected = (100.0 * 1.1_f64.powi(r)).round().max(1.0) as u32;
        assert_eq!(rate_percent(r), expected, "rate_adj {r}");
    }
}

#[test]
fn rate_percent_extremes() {
    assert_eq!(rate_percent(184), 4132892120);
    assert_eq!(rate_percent(185), u32::MAX);
    assert_eq!(rate_percent(i32::MAX), u32::MAX);
    assert_eq!(rate_percent(-55), 1);
    assert_eq!(rate_percent(-56), 1);
    assert_eq!(rate_percent(i32::MIN), 1);
    assert_eq!(rate_percent(5), 161);
    assert_eq!(rate_percent(-5), 62);
}

#[test]
fn pitch_attr_extremes() {
    assert_eq!(pitch_attr(i32::MIN), "-2147483648st");
    assert_eq!(pitch_attr(i32::MAX), "+2147483647st");
    assert_eq!(pitch_attr(10), "+10st");
}

#[test]
fn prosody_open_exact_tag() {
    assert_eq!(
        prosody_open(Prosody { rate_adj: 1, volume: 80, pitch_adj: -2 }).unwrap(),
        r#"<prosody rate="110%" volume="80" pitch="-2st">"#
    );
    assert_eq!(
        prosody_open(Prosody { rate_adj: 0, volume: 100, pitch_adj: 1 }).unwrap(),
        r#"<prosody rate="100%" volume="100" pitch="+1st">"#
    );
}

#[test]
fn prosody_defaults_and_is_default() {
    let d = Prosody::defaults();
    assert_eq!((d.rate_adj, d.volume, d.pitch_adj), (0, 100, 0));
    assert!(d.is_default());
    let p: Prosody = Default::default();
    assert!(p.is_default());
    assert!(!Prosody { rate_adj: 0, volume: 99, pitch_adj: 0 }.is_default());
    assert!(!Prosody { rate_adj: -1, volume: 100, pitch_adj: 0 }.is_default());
    assert!(!Prosody { rate_adj: 0, volume: 100, pitch_adj: 3 }.is_default());
}

#[test]
fn xml_escape_keeps_other_text() {
    assert_eq!(xml_escape(""), "");
    assert_eq!(xml_escape("héllo wörld"), "héllo wörld");
    assert_eq!(xml_escape("&&"), "&amp;&amp;");
}

#[test]
fn escaped_text_holds_no_markup_characters() {
    let e = xml_escape(r#"<x a="1" b='2'>&</x>"#);
    assert!(!e.contains('<'));
    assert!(!e.contains('>'));
    assert!(!e.contains('"'));
    assert!(!e.contains('\''));
}

#[test]
fn mark_names() {
    assert_eq!(word_mark(42, 0), "w_42_0");
    assert_eq!(word_mark(u64::MAX, u32::MAX), "w_18446744073709551615_4294967295");
    assert_eq!(end_mark(7), "end_7");
    assert_eq!(bookmark_mark(2, "a_b"), "bm_2_a_b");
    assert_eq!(bookmark_mark(2, ""), "bm_2_");
}

#[test]
fn parse_mark_reads_back_every_mark_name() {
    for (utt, idx) in [(0u64, 0u32), (3, 5), (u64::MAX, u32::MAX), (1234567890123, 42)] {
        assert_eq!(parse_mark(&word_mark(utt, idx)), Some(ParsedMark::Word { utt, idx }));
        assert_eq!(parse_mark(&end_mark(utt)), Some(ParsedMark::End { utt }));
        for name in ["", "x", "a_b_c", "chapter 1", "ünï"] {
            assert_eq!(
                parse_mark(&bookmark_mark(utt, name)),
                Some(ParsedMark::Bookmark { utt, name: name.to_string() })
            );
        }
    }
}

#[test]
fn parse_mark_follows_integer_parsing() {
    assert_eq!(parse_mark("w_+3_05"), Some(ParsedMark::Word { utt: 3, idx: 5 }));
    assert_eq!(parse_mark("w_3_4294967296"), None);
    assert_eq!(parse_mark("w_3_4294967295"), Some(ParsedMark::Word { utt: 3, idx: 4294967295 }));
    assert_eq!(parse_mark("end_18446744073709551616"), None);
    assert_eq!(parse_mark("w_3"), None);
    assert_eq!(parse_mark("w_"), None);
    assert_eq!(parse_mark("w__1"), None);
    assert_eq!(parse_mark("w_1_"), None);
    assert_eq!(parse_mark("w_1_2_3"), None);
    assert_eq!(parse_mark("w_-1_2"), None);
    assert_eq!(parse_mark("w_+_2"), None);
    assert_eq!(parse_mark("end_"), None);
    assert_eq!(parse_mark("end_1x"), None);
    assert_eq!(parse_mark("bm_x_name"), None);
    assert_eq!(parse_mark("bm_5"), None);
    assert_eq!(parse_mark(""), None);
    assert_eq!(parse_mark("W_1_2"), None);
}

#[test]
fn build_utterance_exact_document() {
    let (s, n) = build_utterance_ssml(42, "hello world", "en-US", Prosody::defaults(), &[]);
    assert_eq!(n, 2);
    assert_eq!(
        s,
        r#"<speak version="1.0" xml:lang="en-US">hello<mark name="w_42_0"/> world<mark name="w_42_1"/><mark name="end_42"/></speak>"#
    );
    let (s, n) = build_utterance_ssml(
        7,
        " hi ",
        "nl-NL",
        Prosody { rate_adj: -1, volume: 50, pitch_adj: 0 },
        &["chapter1", "a<b"],
    );
    assert_eq!(n, 1);
    assert_eq!(
        s,
        r#"<speak version="1.0" xml:lang="nl-NL"><mark name="bm_7_chapter1"/><mark name="bm_7_a&lt;b"/><prosody rate="91%" volume="50" pitch="+0st">hi<mark name="w_7_0"/></prosody><mark name="end_7"/></speak>"#
    );
}

#[test]
fn build_utterance_splits_on_unicode_whitespace() {
    let (s, n) = build_utterance_ssml(1, "a\t\u{3000}b\u{a0}c\n\n", "x", Prosody::defaults(), &[]);
    assert_eq!(n, 3);
    assert_eq!(
        s,
        r#"<speak version="1.0" xml:lang="x">a<mark name="w_1_0"/> b<mark name="w_1_1"/> c<mark name="w_1_2"/><mark name="end_1"/></speak>"#
    );
    let text = "  one\u{2003}two\u{85}three  four ";
    let (_, n) = build_utterance_ssml(1, text, "x", Prosody::defaults(), &[]);
    assert_eq!(n as usize, text.split_whitespace().count());
}

#[test]
fn build_utterance_with_no_words() {
    let (s, n) = build_utterance_ssml(3, "   ", "en-US", Prosody::defaults(), &[]);
    assert_eq!(n, 0);
    assert_eq!(s, r#"<speak version="1.0" xml:lang="en-US"><mark name="end_3"/></speak>"#);
}

#[test]
fn build_utterance_escapes_words_and_language() {
    let (s, _) = build_utterance_ssml(5, "a&b <c>", "e\"n", Prosody::defaults(), &[]);
    assert_eq!(
        s,
        r#"<speak version="1.0" xml:lang="e&quot;n">a&amp;b<mark name="w_5_0"/> &lt;c&gt;<mark name="w_5_1"/><mark name="end_5"/></speak>"#
    );
}

#[test]
fn utterance_ids_count_up() {
    let mut counter = FIRST_UTTERANCE_ID;
    assert_eq!(next_utterance_id(&mut counter), 0);
    assert_eq!(next_utterance_id(&mut counter), 1);
    assert_eq!(counter, 2);
    let mut last = u64::MAX;
    assert_eq!(next_utterance_id(&mut last), u64::MAX);
    assert_eq!(last, 0);
}

#[test]
fn faster_rate_never_gives_a_lower_percentage() {
    for r in -80..=240 {
        assert!(rate_percent(r) <= rate_percent(r + 1), "rate_adj {r}");
    }
    assert!(rate_percent(i32::MAX - 1) <= rate_percent(i32::MAX));
    assert!(rate_percent(i32::MIN) <= rate_percent(i32::MIN + 1));
}

#[test]
fn words_hold_the_text_without_its_whitespace() {
    let text = " a\tbc \u{2028}d ";
    let (s, n) = build_utterance_ssml(8, text, "x", Prosody::defaults(), &[]);
    assert_eq!(n, 3);
    let joined: String = text.split_whitespace().collect();
    assert_eq!(joined, "abcd");
    assert!(s.contains(r#"a<mark name="w_8_0"/> bc<mark name="w_8_1"/> d<mark name="w_8_2"/>"#));
}

fn unescape(s: &str) -> String {
    let mut out = String::new();
    let mut rest = s;
    while !rest.is_empty() {
        let mut matched = false;
        for (ent, c) in [("&amp;", '&'), ("&lt;", '<'), ("&gt;", '>'), ("&quot;", '"'), ("&apos;", '\'')] {
            if let Some(r) = rest.strip_prefix(ent) {
                out.push(c);
                rest = r;
                matched = true;
                break;
            }
        }
        if !matched {
            let c = rest.chars().next().unwrap();
            out.push(c);
            rest = &rest[c.len_utf8()..];
        }
    }
    out
}

#[test]
fn unescaping_the_escape_gives_the_text_back() {
    for s in ["", "plain", "&amp;", "<a&b>\"x'y", "&&&<<>>", "ünï & «x»", "&apos;&quot;"] {
        let e = xml_escape(s);
        assert_eq!(unescape(&e), s);
        for (i, c) in e.char_indices() {
            if c == '&' {
                let r = &e[i..];
                assert!(["&amp;", "&lt;", "&gt;", "&quot;", "&apos;"].iter().any(|p| r.starts_with(p)));
            }
        }
    }
    assert_eq!(xml_escape("no specials here"), "no specials here");
}

#[test]
fn marks_read_back_from_the_document_route_to_the_utterance() {
    let (s, n) = build_utterance_ssml(
        11,
        "one two  three",
        "en",
        Prosody { rate_adj: 2, volume: 70, pitch_adj: -1 },
        &["a\"b", "c_d"],
    );
    let open = "<mark name=\"";
    let mut names = Vec::new();
    let mut rest = s.as_str();
    while let Some(i) = rest.find(open) {
        let after = &rest[i + open.len()..];
        let j = after.find('"').unwrap();
        names.push(unescape(&after[..j]));
        rest = &after[j + 1..];
    }
    let parsed: Vec<_> = names.iter().map(|x| parse_mark(x)).collect();
    let mut expected = vec![
        Some(ParsedMark::Bookmark { utt: 11, name: "a\"b".to_string() }),
        Some(ParsedMark::Bookmark { utt: 11, name: "c_d".to_string() }),
    ];
    for idx in 0..n {
        expected.push(Some(ParsedMark::Word { utt: 11, idx }));
    }
    expected.push(Some(ParsedMark::End { utt: 11 }));
    assert_eq!(n, 3);
    assert_eq!(parsed, expected);
}
