use bytes::BytesMut;
use openai_oss_relay::sse::{Step, Upstream};
use openai_oss_relay::{ReplacementConfig, SseTransformer};

const OPEN: &str = "<|channel|>analysis<|message|>";
const CLOSE: &str = "<|end|><|start|>assistant<|channel|>final<|message|>";

fn transformer() -> SseTransformer {
    SseTransformer::new(ReplacementConfig::default())
}

/// What is handed on for `chunks`, event by event, up to the end of the stream.
fn run(chunks: &[&[u8]]) -> Vec<Vec<u8>> {
    let mut t = transformer();
    let mut out = Vec::new();
    let mut left = chunks.iter();
    let mut step: Step<()> = t.poll_next(None);
    loop {
        step = match step {
            Step::Pull => match left.next() {
                Some(chunk) => t.poll_next(Some(Upstream::Chunk(chunk))),
                None => t.poll_next(Some(Upstream::Closed)),
            },
            Step::Emit(bytes) => {
                out.push(bytes);
                t.poll_next(None)
            }
            Step::Fail(()) => panic!(),
            Step::End => return out,
        };
    }
}

fn texts(out: Vec<Vec<u8>>) -> Vec<String> {
    out.into_iter().map(|event| String::from_utf8(event).unwrap()).collect()
}

#[test]
fn boundaries_are_found() {
    let find = |bytes: &[u8]| SseTransformer::find_event_boundary(&BytesMut::from(bytes));
    assert_eq!(find(b"ab\n\ncd\n\n"), Some(2));
    assert_eq!(find(b"\n\n\n"), Some(0));
    assert_eq!(find(b"a\nb\n"), None);
    assert_eq!(find(b"a\r\n\r\n"), None);
    assert_eq!(find(b""), None);
    assert_eq!(find(b"\n"), None);
}

#[test]
fn events_are_rewritten_one_by_one() {
    let stream = format!("data: {OPEN}a\n\ndata: b\n\ndata: c{CLOSE}d\n\ndata: [DONE]\n\n");
    assert_eq!(
        texts(run(&[stream.as_bytes()])),
        vec!["data: <think>a\n\n", "data: b\n\n", "data: c</think>d\n\n", "data: [DONE]\n\n"]
    );
}

#[test]
fn chunking_makes_no_difference() {
    let stream = format!("data: {OPEN}é\n\n\n\ndata: x{CLOSE}\n\ndata: [DONE]\n\nrest {OPEN}");
    let bytes = stream.as_bytes();
    let whole = run(&[bytes]);
    assert_eq!(whole.last().unwrap(), b"rest <think>");
    for i in 0..=bytes.len() {
        for j in [i, (i + 7).min(bytes.len()), bytes.len()] {
            assert_eq!(run(&[&bytes[..i], &bytes[i..j], &bytes[j..]]), whole);
        }
    }
    let single: Vec<&[u8]> = bytes.chunks(1).collect();
    assert_eq!(run(&single), whole);
}

#[test]
fn a_plain_stream_passes_byte_for_byte() {
    let stream = b"data: 1\n\n: comment\n\xff\xfe\n\n\n\ndata: [DONE]\n\nend";
    assert_eq!(run(&[stream]).concat(), stream);
    assert_eq!(run(&[]), Vec::<Vec<u8>>::new());
    assert_eq!(run(&[b""]), Vec::<Vec<u8>>::new());
}

#[test]
fn the_rest_is_flushed_at_the_end() {
    let tail = format!("data: {OPEN}");
    assert_eq!(texts(run(&[b"data: 1\n\n", tail.as_bytes()])), vec!["data: 1\n\n", "data: <think>"]);
}

#[test]
fn the_sentinel_is_kept() {
    let mut t = transformer();
    for event in [
        format!("data: [DONE]{OPEN}\n\n"),
        format!("\n \u{3000}data: [DONE]{OPEN}\n\n"),
    ] {
        assert_eq!(t.rewrite_event(event.as_bytes()), event.as_bytes());
        assert!(!t.replacer.opened);
    }
    // What comes before the sentinel must be white space.
    let event = format!("x data: [DONE]{OPEN}\n\n");
    assert_eq!(t.rewrite_event(event.as_bytes()), b"x data: [DONE]<think>\n\n");
    assert!(t.replacer.opened);
}

#[test]
fn what_is_not_utf8_is_kept() {
    let mut t = transformer();
    let mut event = format!("data: {OPEN}").into_bytes();
    event.push(0xc3);
    event.extend_from_slice(b"\n\n");
    assert_eq!(t.rewrite_event(&event), event);
    assert!(!t.replacer.opened);
}

#[test]
fn failures_are_passed_on() {
    let mut t = transformer();
    assert!(matches!(t.poll_next::<&str>(None), Step::Pull));
    assert!(matches!(t.poll_next::<&str>(Some(Upstream::Chunk(b"data: 1\n"))), Step::Pull));
    assert_eq!(t.waiting_len(), 8);
    assert!(matches!(t.poll_next(Some(Upstream::Failed("reset"))), Step::Fail("reset")));
    // What waits is not lost.
    match t.poll_next::<&str>(Some(Upstream::Chunk(b"\ndata: 2"))) {
        Step::Emit(out) => assert_eq!(out, b"data: 1\n\n"),
        _ => panic!(),
    }
    match t.poll_next::<&str>(Some(Upstream::Closed)) {
        Step::Emit(out) => assert_eq!(out, b"data: 2"),
        _ => panic!(),
    }
    assert!(matches!(t.poll_next::<&str>(Some(Upstream::Closed)), Step::End));
    assert_eq!(t.waiting_len(), 0);
}

#[test]
fn a_stream_that_opens_no_block_passes_byte_for_byte() {
    let stream = format!("data: {CLOSE}\n\ndata: [DONE]{OPEN}\n\n{CLOSE}");
    assert_eq!(run(&[stream.as_bytes()]).concat(), stream.as_bytes());
}

#[test]
fn bytes_without_the_open_pattern_pass_however_they_are_cut() {
    let stream = format!("data: <|channel|>analysis\n\n<|message|>{CLOSE}é\n\nend");
    for i in 0..=stream.len() {
        assert_eq!(run(&[&stream.as_bytes()[..i], &stream.as_bytes()[i..]]).concat(), stream.as_bytes());
    }
}
