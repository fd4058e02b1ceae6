use openai_oss_relay::{PatternReplacer, ReplacementConfig};

const OPEN: &str = "<|channel|>analysis<|message|>";
const CLOSE: &str = "<|end|><|start|>assistant<|channel|>final<|message|>";

fn default_replacer() -> PatternReplacer {
    PatternReplacer::new(ReplacementConfig::default())
}

#[test]
fn the_default_rules() {
    let cfg = ReplacementConfig::default();
    assert_eq!(cfg.open_pattern, OPEN);
    assert_eq!(cfg.close_pattern, CLOSE);
    assert_eq!(cfg.open_tag, "<think>");
    assert_eq!(cfg.close_tag, "</think>");
}

#[test]
fn a_block_is_tagged() {
    let mut replacer = default_replacer();
    assert!(!replacer.opened);
    let input = format!("a{OPEN}b{CLOSE}c");
    assert_eq!(replacer.rewrite(&input), "a<think>b</think>c");
    assert!(!replacer.opened);
}

#[test]
fn a_block_spans_several_pieces() {
    let mut replacer = default_replacer();
    assert_eq!(replacer.rewrite(&format!("{OPEN}think")), "<think>think");
    assert!(replacer.opened);
    assert_eq!(replacer.rewrite("more"), "more");
    assert!(replacer.opened);
    assert_eq!(replacer.rewrite(&format!("end{CLOSE}answer")), "end</think>answer");
    assert!(!replacer.opened);
}

#[test]
fn plain_text_passes() {
    let mut replacer = default_replacer();
    assert_eq!(replacer.rewrite("Grüße"), "Grüße");
    assert!(!replacer.opened);
    assert_eq!(replacer.rewrite(""), "");
}

#[test]
fn the_close_pattern_outside_a_block_is_kept() {
    let mut replacer = default_replacer();
    let input = format!("x{CLOSE}y");
    assert_eq!(replacer.rewrite(&input), input);
    assert!(!replacer.opened);
}

#[test]
fn only_the_first_open_pattern_is_replaced() {
    let mut replacer = default_replacer();
    assert_eq!(replacer.rewrite(&format!("{OPEN}a{OPEN}")), format!("<think>a{OPEN}"));
    assert_eq!(replacer.rewrite(OPEN), OPEN);
    assert!(replacer.opened);
}

#[test]
fn every_close_pattern_is_replaced_at_once() {
    let mut replacer = default_replacer();
    let input = format!("{OPEN}a{CLOSE}b{CLOSE}c");
    let out = replacer.rewrite(&input);
    assert_eq!(out, "<think>a</think>b</think>c");
    assert!(!out.contains(CLOSE));
}

#[test]
fn a_close_pattern_before_the_open_pattern_is_replaced_too() {
    let mut replacer = default_replacer();
    assert_eq!(replacer.rewrite(&format!("{CLOSE}{OPEN}")), "</think><think>");
    assert!(!replacer.opened);
}

#[test]
fn a_block_can_open_again() {
    let mut replacer = default_replacer();
    let input = format!("{OPEN}a{CLOSE}");
    assert_eq!(replacer.rewrite(&input), "<think>a</think>");
    assert_eq!(replacer.rewrite(&input), "<think>a</think>");
}

#[test]
fn empty_patterns() {
    let mut replacer = PatternReplacer::new(ReplacementConfig {
        open_pattern: "",
        close_pattern: "",
        open_tag: "(",
        close_tag: ")",
    });
    assert_eq!(replacer.rewrite("x"), ")()x)");
    assert!(!replacer.opened);
}

#[test]
fn a_tag_can_bring_in_the_close_pattern() {
    let mut replacer = PatternReplacer::new(ReplacementConfig {
        open_pattern: "[",
        close_pattern: "]",
        open_tag: "]]",
        close_tag: ".",
    });
    assert_eq!(replacer.rewrite("a[b"), "a..b");
    assert!(!replacer.opened);
}

#[test]
fn the_state_follows_the_text() {
    for opened in [false, true] {
        let after = |input: &str| {
            let mut replacer = default_replacer();
            replacer.opened = opened;
            replacer.rewrite(input);
            replacer.opened
        };
        assert!(!after(CLOSE));
        assert!(!after(&format!("{OPEN}{CLOSE}")));
        assert!(!after(&format!("{CLOSE}{OPEN}")));
        assert!(after(OPEN));
        assert_eq!(after("<|end|>"), opened);
    }
}

#[test]
fn the_patterns_can_be_put_back() {
    for opened in [false, true] {
        for input in [
            format!("a{OPEN}b{CLOSE}c{CLOSE}{OPEN}d"),
            format!("{CLOSE}x"),
            format!("<{OPEN}/think>"),
            "<thin/".to_string(),
        ] {
            let mut replacer = default_replacer();
            replacer.opened = opened;
            let out = replacer.rewrite(&input);
            assert_eq!(out.replace("</think>", CLOSE).replace("<think>", OPEN), input);
        }
    }
}
