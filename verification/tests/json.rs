use openai_oss_relay::json::{rewrite_body, rewrite_choices, JsonBody, MAX_NESTING};
use openai_oss_relay::{PatternReplacer, ReplacementConfig};
use serde_json::Value;

const OPEN: &str = "<|channel|>analysis<|message|>";
const CLOSE: &str = "<|end|><|start|>assistant<|channel|>final<|message|>";

fn fill(text: &str) -> String {
    text.replace("OPEN", OPEN).replace("CLOSE", CLOSE)
}

fn rewritten(text: &str) -> String {
    match rewrite_body(fill(text).as_bytes(), ReplacementConfig::default()) {
        JsonBody::Rewritten(bytes) => String::from_utf8(bytes).unwrap(),
        _ => panic!(),
    }
}

#[test]
fn every_content_is_rewritten() {
    assert_eq!(
        rewritten(
            r#"{"choices":[{"message":{"content":"OPENaCLOSEb"}},{"message":{"content":"OPENcCLOSEd"}}]}"#
        ),
        r#"{"choices":[{"message":{"content":"<think>a</think>b"}},{"message":{"content":"<think>c</think>d"}}]}"#
    );
}

#[test]
fn the_state_goes_from_choice_to_choice() {
    assert_eq!(
        rewritten(
            r#"{"choices":[{"message":{"content":"OPENa"}},{"index":1},{"message":{"content":"bCLOSEc"}}]}"#
        ),
        r#"{"choices":[{"message":{"content":"<think>a"}},{"index":1},{"message":{"content":"b</think>c"}}]}"#
    );
}

#[test]
fn nothing_else_is_touched() {
    let text = fill(
        r#"{"choices":[{"delta":{"content":"OPEN"},"message":{"content":"x","role":"OPEN"},"n":1.5},[{"message":{"content":"OPEN"}}],"OPEN",null,{"message":["OPEN"]},{"message":{"content":null}}],"id":"OPEN","z":[true,-3]}"#,
    );
    assert_eq!(rewritten(&text), text);
}

#[test]
fn a_completion_without_choices_is_kept() {
    for text in [r#"{"error":"OPEN"}"#, r#"{"choices":"OPEN"}"#, r#"["OPEN"]"#, "3", "null", "\"OPEN\""] {
        let text = fill(text);
        assert_eq!(rewritten(&text), text);
    }
    assert_eq!(rewritten(r#"{"choices":[]}"#), r#"{"choices":[]}"#);
}

#[test]
fn members_are_written_in_the_order_of_their_names() {
    assert_eq!(rewritten(" { \"b\" : 1 , \"a\" : 2 } "), r#"{"a":2,"b":1}"#);
}

#[test]
fn what_is_not_json() {
    for text in ["", "{", "data: {}", "{}x", "\u{feff}{}"] {
        let body = rewrite_body(text.as_bytes(), ReplacementConfig::default());
        assert!(matches!(body, JsonBody::NotJson));
    }
    let body = rewrite_body(b"\"\xff\"", ReplacementConfig::default());
    assert!(matches!(body, JsonBody::NotJson));
}

#[test]
fn a_value_is_rewritten_in_place() {
    let text = fill(r#"{"choices":[{"message":{"content":"OPENa"}}],"model":"m"}"#);
    let mut value: Value = serde_json::from_str(&text).unwrap();
    let mut replacer = PatternReplacer::new(ReplacementConfig::default());
    rewrite_choices(&mut value, &mut replacer);
    assert_eq!(value["choices"][0]["message"]["content"], "<think>a");
    assert_eq!(value["model"], "m");
    assert!(replacer.opened);
    // The block is open now.
    rewrite_choices(&mut value, &mut replacer);
    assert_eq!(value["choices"][0]["message"]["content"], "<think>a");
    assert!(replacer.opened);
}

#[test]
fn the_new_body_reads_as_the_rewritten_completion() {
    let text = fill(
        r#"{"choices":[{"index":0,"message":{"content":"OPENa\n\u0007\"é😀CLOSE"}}],"n":[-7,18446744073709551615,0]}"#,
    );
    let mut value: Value = serde_json::from_str(&text).unwrap();
    let mut replacer = PatternReplacer::new(ReplacementConfig::default());
    rewrite_choices(&mut value, &mut replacer);
    assert_eq!(serde_json::from_str::<Value>(&rewritten(&text)).unwrap(), value);
    assert_eq!(value["choices"][0]["message"]["content"], "<think>a\n\u{7}\"é😀</think>");
}

#[test]
fn nesting_is_limited() {
    let nested = |depth: usize| format!("{}{}", "[".repeat(depth), "]".repeat(depth));
    assert_eq!(MAX_NESTING, 127);
    assert_eq!(rewritten(&nested(MAX_NESTING)), nested(MAX_NESTING));
    let deeper = nested(MAX_NESTING + 1);
    let body = rewrite_body(deeper.as_bytes(), ReplacementConfig::default());
    assert!(matches!(body, JsonBody::NotJson));
}

#[test]
fn escapes_are_read_and_written() {
    assert_eq!(
        rewritten(r#"{"choices":[{"message":{"content":"<|channel|>analysis<|message|>\n\"é"}}]}"#),
        r#"{"choices":[{"message":{"content":"<think>\n\"é"}}]}"#
    );
}

#[test]
fn a_completion_without_the_pattern_that_is_looked_for_is_kept() {
    let text = fill(r#"{"choices":[{"message":{"content":"aCLOSEb"}}]}"#);
    assert_eq!(rewritten(&text), text);
    let text = fill(r#"{"choices":[{"message":{"content":"aOPENb"}}]}"#);
    let mut value: Value = serde_json::from_str(&text).unwrap();
    let mut replacer = PatternReplacer::new(ReplacementConfig::default());
    replacer.opened = true;
    rewrite_choices(&mut value, &mut replacer);
    assert_eq!(value, serde_json::from_str::<Value>(&text).unwrap());
    assert!(replacer.opened);
}
