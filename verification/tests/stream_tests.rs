use meshcore::stream::{data_payload, is_done_marker, EventFacts, Finished, LineSplitter, Tally};

fn feed_all(chunks: &[&str]) -> Vec<String> {
    let mut s = LineSplitter::new();
    let mut out = Vec::new();
    for c in chunks {
        out.extend(s.feed(c));
    }
    out
}

#[test]
fn events_straddling_chunks_are_put_back_together() {
    let mut s = LineSplitter::new();
    assert_eq!(s.feed("data: {\"a\":1}\r\nda"), vec!["data: {\"a\":1}".to_string()]);
    assert_eq!(s.feed("ta: [DO"), Vec::<String>::new());
    assert_eq!(s.feed("NE]\n\n"), vec!["data: [DONE]".to_string(), String::new()]);
}

#[test]
fn chunking_does_not_change_the_lines() {
    let whole = "data: one\r\r\ndata: two\n: comment\ndata: three\npartial";
    let at_once = feed_all(&[whole]);
    assert_eq!(at_once, vec!["data: one", "data: two", ": comment", "data: three"]);
    for cut in 0..whole.len() {
        if whole.is_char_boundary(cut) {
            assert_eq!(feed_all(&[&whole[..cut], &whole[cut..]]), at_once, "cut at {cut}");
        }
    }
}

#[test]
fn invalid_bytes_are_replaced() {
    let mut s = LineSplitter::new();
    assert_eq!(s.feed_bytes(b"ab\xffc\nrest"), vec!["ab\u{FFFD}c".to_string()]);
    assert_eq!(s.feed_bytes(b"\n"), vec!["rest".to_string()]);
}

#[test]
fn event_payloads_and_the_end_marker() {
    assert_eq!(data_payload("data: {\"x\":1}"), Some("{\"x\":1}".to_string()));
    assert_eq!(data_payload("data:{}"), None);
    assert_eq!(data_payload("event: ping"), None);
    assert_eq!(data_payload("data: "), Some(String::new()));
    assert!(is_done_marker("[DONE]"));
    assert!(is_done_marker("  [DONE]\t"));
    assert!(!is_done_marker("[DONE]x"));
    assert!(!is_done_marker("[done]"));
    assert!(!is_done_marker(""));
    assert!(!is_done_marker("   "));
}

#[test]
fn the_tally_counts_tokens_and_finishes_once() {
    let mut t = Tally::new();
    t.on_chunk(b"  \r\n", 5);
    assert_eq!(t.first_ms, None);
    t.on_chunk(b"data: {}", 40);
    t.on_chunk(b"data: {}", 90);
    assert_eq!(t.first_ms, Some(40));
    let text = EventFacts { has_text: true, usage: None };
    t.on_event(text);
    t.on_event(text);
    t.on_event(EventFacts { has_text: false, usage: None });
    assert_eq!(t.tokens, 2);
    t.on_event(EventFacts { has_text: false, usage: Some((12, Some(0))) });
    assert_eq!((t.tokens, t.prompt_tokens), (2, 12));
    t.on_event(EventFacts { has_text: true, usage: Some((12, Some(7))) });
    assert_eq!(t.tokens, 7);
    assert_eq!(t.on_done(500), Some(Finished { ttft_ms: 40, total_ms: 500, tokens: 7, prompt_tokens: 12 }));
    assert_eq!(t.on_done(600), None);
    let mut silent = Tally::new();
    assert_eq!(silent.on_done(300), Some(Finished { ttft_ms: 300, total_ms: 300, tokens: 0, prompt_tokens: 0 }));
}
