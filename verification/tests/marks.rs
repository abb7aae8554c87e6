use sapience::marks::{mark_utterance, MarkQueue, MarkRegistry};
use sapience::ssml::{parse_mark, ParsedMark};

#[test]
fn drain_hands_out_marks_in_order_once() {
    let mut q = MarkQueue::new();
    q.record(ParsedMark::Word { utt: 9, idx: 0 });
    q.record(ParsedMark::Bookmark { utt: 9, name: "one".to_string() });
    q.record(ParsedMark::Word { utt: 9, idx: 1 });
    q.record(ParsedMark::Bookmark { utt: 9, name: "two".to_string() });
    let snap = q.drain();
    assert_eq!(snap.words, vec![0, 1]);
    assert_eq!(snap.bookmarks, vec!["one".to_string(), "two".to_string()]);
    assert!(!snap.end_reached);
    let again = q.drain();
    assert!(again.words.is_empty());
    assert!(again.bookmarks.is_empty());
}

#[test]
fn end_mark_stays_known_across_drains() {
    let mut q = MarkQueue::new();
    q.record(ParsedMark::End { utt: 4 });
    assert!(q.drain().end_reached);
    assert!(q.has_news());
    assert!(q.drain().end_reached);
}

#[test]
fn registry_routes_marks_by_utterance() {
    let mut r: MarkRegistry<&'static str> = MarkRegistry::new();
    r.register(1, "first");
    r.register(2, "second");
    let m = parse_mark("w_2_7").unwrap();
    assert_eq!(mark_utterance(&m), 2);
    assert_eq!(r.channel(mark_utterance(&m)), Some(&"second"));
    r.unregister(2);
    assert_eq!(r.channel(2), None);
    assert_eq!(r.channel(1), Some(&"first"));
    assert_eq!(mark_utterance(&ParsedMark::End { utt: 5 }), 5);
    assert_eq!(mark_utterance(&ParsedMark::Bookmark { utt: 6, name: String::new() }), 6);
}
