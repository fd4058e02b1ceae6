use openai_oss_relay::decimal::{parse_port, push_decimal};
use openai_oss_relay::pattern::{contains, replace_all, replace_first};
use openai_oss_relay::text::{
    chars_of, push_range, range_begins_with, same_text, skip_white_space, starts_with, white_space,
};

/// Every string of at most `len` characters over a small alphabet.
fn strings(len: usize) -> Vec<String> {
    let mut all = vec![String::new()];
    let mut last = all.clone();
    for _ in 0..len {
        let mut next = Vec::new();
        for s in &last {
            for c in ['a', 'b', 'é'] {
                let mut t = s.clone();
                t.push(c);
                next.push(t);
            }
        }
        all.extend(next.iter().cloned());
        last = next;
    }
    all
}

#[test]
fn search_agrees_with_the_standard_library() {
    for text in strings(5) {
        for pattern in strings(2) {
            assert_eq!(contains(&text, &pattern), text.contains(pattern.as_str()));
            for with in ["", "-", "ab", "a"] {
                assert_eq!(
                    replace_first(&text, &pattern, with),
                    text.replacen(pattern.as_str(), with, 1)
                );
                assert_eq!(
                    replace_all(&text, &pattern, with),
                    text.replace(pattern.as_str(), with)
                );
            }
        }
    }
}

#[test]
fn matches_do_not_overlap() {
    assert_eq!(replace_all("aaaaa", "aa", "x"), "xxa");
    assert_eq!(replace_first("xaaya", "a", "-"), "x-aya");
    assert_eq!(replace_first("xyz", "a", "-"), "xyz");
}

#[test]
fn the_empty_pattern_matches_everywhere() {
    assert_eq!(replace_all("aé", "", "-"), "-a-é-");
    assert_eq!(replace_all("", "", "-"), "-");
    assert_eq!(replace_first("aé", "", "-"), "-aé");
    assert!(contains("", ""));
}

#[test]
fn white_space_is_that_of_unicode() {
    for v in 0..=0x10ffff_u32 {
        if let Some(c) = char::from_u32(v) {
            assert_eq!(white_space(c), c.is_whitespace(), "{:x}", v);
        }
    }
}

#[test]
fn leading_white_space_is_skipped() {
    assert_eq!(skip_white_space(&chars_of(" \t\u{2003}\nx ")), 4);
    assert_eq!(skip_white_space(&chars_of("x")), 0);
    assert_eq!(skip_white_space(&chars_of("  ")), 2);
    assert_eq!(skip_white_space(&chars_of("")), 0);
}

#[test]
fn characters_and_ranges() {
    let chars = chars_of("a√b");
    assert_eq!(chars, vec!['a', '√', 'b']);
    let mut out = String::from(">");
    push_range(&mut out, &chars, 1, 3);
    assert_eq!(out, ">√b");
    assert!(range_begins_with(&chars, 1, &chars_of("√")));
    assert!(!range_begins_with(&chars, 2, &chars_of("√")));
    assert!(!range_begins_with(&chars, 2, &chars_of("bc")));
}

#[test]
fn prefixes_and_equality() {
    assert!(starts_with("text/event-stream; charset=utf-8", "text/event-stream"));
    assert!(!starts_with("text/event", "text/event-stream"));
    assert!(!starts_with("Text/event-stream", "text/event-stream"));
    assert!(starts_with("x", ""));
    assert!(same_text("héllo", "héllo"));
    assert!(!same_text("hello", "héllo"));
    assert!(!same_text("hell", "hello"));
    assert!(!same_text("hella", "hello"));
}

#[test]
fn ports_are_read_as_the_standard_library_reads_them() {
    for text in [
        "", "+", "-", "0", "-0", "+0", "8080", "+8080", "++1", "65535", "65536", "99999", "00080",
        "000000000000000000008080", " 80", "80 ", "8_0", "0x50", "8O", "٣", "1e3", "4294967296",
    ] {
        assert_eq!(parse_port(text), text.parse::<u16>().ok(), "{:?}", text);
    }
}

#[test]
fn ports_read_back_as_they_were_written() {
    for n in 0..=u16::MAX {
        let mut out = String::new();
        push_decimal(&mut out, n);
        assert_eq!(out, n.to_string());
        assert_eq!(parse_port(&out), Some(n));
    }
    let mut out = String::from("p");
    push_decimal(&mut out, 1234);
    assert_eq!(out, "p1234");
}
