//! The stateful rewrite of chat text.

use vstd::prelude::*;

use crate::config::ReplacementConfig;
use crate::pattern;

verus! {

/// Replaces the patterns of a [`ReplacementConfig`] by its tags and remembers,
/// from one piece of text to the next, whether a block is open.
#[derive(Debug, Clone, Copy)]
pub struct PatternReplacer {
    pub cfg: ReplacementConfig,
    /// Whether a block is open.
    pub opened: bool,
}

/// The pattern that is looked for: inside a block the one that closes it,
/// outside the one that opens it.
pub open spec fn sought(cfg: ReplacementConfig, opened: bool) -> Seq<char> {
    if opened {
        cfg.close_pattern@
    } else {
        cfg.open_pattern@
    }
}

/// Whether a block is open once the open pattern has been looked for in `input`.
pub open spec fn block_open(cfg: ReplacementConfig, opened: bool, input: Seq<char>) -> bool {
    opened || pattern::occurs(input, cfg.open_pattern@)
}

/// `input` once the open pattern has been looked for in it.
pub open spec fn with_open_tag(
    cfg: ReplacementConfig,
    opened: bool,
    input: Seq<char>,
) -> Seq<char> {
    if opened {
        input
    } else {
        pattern::replaced_first(input, cfg.open_pattern@, cfg.open_tag@)
    }
}

/// Whether the rewrite of `input` closes a block.
pub open spec fn closes(cfg: ReplacementConfig, opened: bool, input: Seq<char>) -> bool {
    block_open(cfg, opened, input) && pattern::occurs(
        with_open_tag(cfg, opened, input),
        cfg.close_pattern@,
    )
}

/// The text that comes out for `input`.
pub open spec fn rewritten(cfg: ReplacementConfig, opened: bool, input: Seq<char>) -> Seq<char> {
    if closes(cfg, opened, input) {
        pattern::replaced_all(
            with_open_tag(cfg, opened, input),
            cfg.close_pattern@,
            cfg.close_tag@,
        )
    } else {
        with_open_tag(cfg, opened, input)
    }
}

/// Whether a block is open after `input`.
pub open spec fn opened_after(cfg: ReplacementConfig, opened: bool, input: Seq<char>) -> bool {
    block_open(cfg, opened, input) && !closes(cfg, opened, input)
}

impl PatternReplacer {
    /// A replacer with no open block.
    pub fn new(cfg: ReplacementConfig) -> (replacer: Self)
        ensures
            replacer.cfg == cfg,
            !replacer.opened,
    {
        PatternReplacer { cfg, opened: false }
    }

    /// Rewrites `input` according to the configured patterns.
    ///
    /// * The first occurrence of `open_pattern` (while not already inside a
    ///   block) is replaced by `open_tag`.
    /// * While inside a block, any occurrence of `close_pattern` is replaced by
    ///   `close_tag`. The block then closes.
    pub fn rewrite(&mut self, input: &str) -> (out: String)
        ensures
            final(self).cfg == old(self).cfg,
            out@ == rewritten(old(self).cfg, old(self).opened, input@),
            final(self).opened == opened_after(old(self).cfg, old(self).opened, input@),
    {
        let mut out = input.to_owned();

        if !self.opened && pattern::contains(out.as_str(), self.cfg.open_pattern) {
            out = pattern::replace_first(out.as_str(), self.cfg.open_pattern, self.cfg.open_tag);
            self.opened = true;
        }
        if self.opened && pattern::contains(out.as_str(), self.cfg.close_pattern) {
            out = pattern::replace_all(out.as_str(), self.cfg.close_pattern, self.cfg.close_tag);
            self.opened = false;
        }
        out
    }
}

/// Outside a block, text without the open pattern comes out as it went in and
/// opens no block, whatever else it holds.
pub proof fn law_outside_a_block(cfg: ReplacementConfig, input: Seq<char>)
    requires
        !pattern::occurs(input, cfg.open_pattern@),
    ensures
        rewritten(cfg, false, input) == input,
        !opened_after(cfg, false, input),
{
}

/// Inside a block, text without the close pattern comes out as it went in and
/// leaves the block open, even where it holds the open pattern.
pub proof fn law_inside_a_block(cfg: ReplacementConfig, input: Seq<char>)
    requires
        !pattern::occurs(input, cfg.close_pattern@),
    ensures
        rewritten(cfg, true, input) == input,
        opened_after(cfg, true, input),
{
}

/// Text that does not hold the pattern that is looked for passes unchanged and
/// leaves the state as it is.
pub proof fn law_plain_text_passes(cfg: ReplacementConfig, opened: bool, input: Seq<char>)
    requires
        !pattern::occurs(input, sought(cfg, opened)),
    ensures
        rewritten(cfg, opened, input) == input,
        opened_after(cfg, opened, input) == opened,
{
}

/// Inside a block, every close pattern becomes the close tag, and the block closes.
pub proof fn law_block_closes(cfg: ReplacementConfig, input: Seq<char>)
    requires
        pattern::occurs(input, cfg.close_pattern@),
    ensures
        rewritten(cfg, true, input) == pattern::replaced_all(
            input,
            cfg.close_pattern@,
            cfg.close_tag@,
        ),
        !opened_after(cfg, true, input),
{
}

/// The open pattern outside a block becomes the open tag, once, and the block
/// stays open until a close pattern comes.
pub proof fn law_block_opens(cfg: ReplacementConfig, before: Seq<char>, after: Seq<char>)
    requires
        pattern::is_first(
            before + cfg.open_pattern@ + after,
            cfg.open_pattern@,
            before.len() as int,
        ),
        !pattern::occurs(before + cfg.open_tag@ + after, cfg.close_pattern@),
    ensures
        rewritten(cfg, false, before + cfg.open_pattern@ + after) == before + cfg.open_tag@ + after,
        opened_after(cfg, false, before + cfg.open_pattern@ + after),
{
    lemma_replaced_first_around(before, cfg.open_pattern@, after, cfg.open_tag@);
}

/// A block between the two patterns comes out between the two tags, with the
/// text before it, in it and after it kept, and no block is left open.
pub proof fn law_block_is_tagged(
    cfg: ReplacementConfig,
    before: Seq<char>,
    inside: Seq<char>,
    after: Seq<char>,
)
    requires
        cfg.close_pattern@.len() > 0,
        pattern::is_first(
            before + cfg.open_pattern@ + (inside + cfg.close_pattern@ + after),
            cfg.open_pattern@,
            before.len() as int,
        ),
        pattern::is_first(
            before + cfg.open_tag@ + inside + cfg.close_pattern@ + after,
            cfg.close_pattern@,
            (before + cfg.open_tag@ + inside).len() as int,
        ),
        !pattern::occurs(after, cfg.close_pattern@),
    ensures
        rewritten(
            cfg,
            false,
            before + cfg.open_pattern@ + (inside + cfg.close_pattern@ + after),
        ) == before + cfg.open_tag@ + inside + cfg.close_tag@ + after,
        !opened_after(
            cfg,
            false,
            before + cfg.open_pattern@ + (inside + cfg.close_pattern@ + after),
        ),
{
    let rest = inside + cfg.close_pattern@ + after;
    lemma_replaced_first_around(before, cfg.open_pattern@, rest, cfg.open_tag@);
    let head = before + cfg.open_tag@ + inside;
    let tagged = head + cfg.close_pattern@ + after;
    assert(before + cfg.open_tag@ + rest == tagged);
    pattern::lemma_first_unique(tagged, cfg.close_pattern@, head.len() as int);
    assert(tagged.take(head.len() as int) == head);
    assert(tagged.skip((head.len() + cfg.close_pattern@.len()) as int) == after);
    assert(pattern::replaced_all(after, cfg.close_pattern@, cfg.close_tag@) == after);
}

/// Once a block is open, no close pattern reaches the reader, provided that the
/// close tag cannot become part of a new close pattern.
pub proof fn law_no_close_pattern_is_left(
    cfg: ReplacementConfig,
    opened: bool,
    input: Seq<char>,
)
    requires
        cfg.close_pattern@.len() > 0,
        pattern::never_joins(cfg.close_pattern@, cfg.close_tag@),
        block_open(cfg, opened, input),
    ensures
        !pattern::occurs(rewritten(cfg, opened, input), cfg.close_pattern@),
{
    pattern::lemma_replaced_all_clears(
        with_open_tag(cfg, opened, input),
        cfg.close_pattern@,
        cfg.close_tag@,
    );
}

/// Whether patterns and tags keep apart: a close pattern neither touches an open
/// pattern nor can be made up of a tag, the tags do not overlap themselves, and
/// the open tag cannot become part of a close tag.
pub open spec fn keep_apart(cfg: ReplacementConfig) -> bool {
    &&& cfg.close_pattern@.len() > 0
    &&& cfg.open_tag@.len() > 0
    &&& cfg.close_tag@.len() > 0
    &&& pattern::never_joins(cfg.close_pattern@, cfg.open_pattern@)
    &&& pattern::never_joins(cfg.close_pattern@, cfg.open_tag@)
    &&& pattern::never_joins(cfg.close_pattern@, cfg.close_tag@)
    &&& pattern::never_joins(cfg.close_tag@, cfg.open_tag@)
    &&& pattern::never_overlaps(cfg.open_tag@)
    &&& pattern::never_overlaps(cfg.close_tag@)
}

/// The default patterns and tags keep apart.
pub proof fn law_default_rules_keep_apart(cfg: ReplacementConfig)
    requires
        cfg.open_pattern@ == "<|channel|>analysis<|message|>"@,
        cfg.close_pattern@ == "<|end|><|start|>assistant<|channel|>final<|message|>"@,
        cfg.open_tag@ == "<think>"@,
        cfg.close_tag@ == "</think>"@,
    ensures
        keep_apart(cfg),
{
    reveal_strlit("<|end|><|start|>assistant<|channel|>final<|message|>");
    reveal_strlit("<think>");
    reveal_strlit("</think>");
    lemma_close_pattern_and_open_pattern();
    lemma_close_pattern_and_open_tag();
    lemma_close_pattern_and_close_tag();
    lemma_close_tag_and_open_tag();
    lemma_tag_never_overlaps("<think>"@);
    lemma_tag_never_overlaps("</think>"@);
}

proof fn lemma_close_pattern_and_open_pattern()
    ensures
        pattern::never_joins(
            "<|end|><|start|>assistant<|channel|>final<|message|>"@,
            "<|channel|>analysis<|message|>"@,
        ),
{
    let close = "<|end|><|start|>assistant<|channel|>final<|message|>"@;
    let open = "<|channel|>analysis<|message|>"@;
    reveal_strlit("<|end|><|start|>assistant<|channel|>final<|message|>");
    reveal_strlit("<|channel|>analysis<|message|>");
    assert(close.len() == 52 && open.len() == 30);
    assert(forall|i: int| 0 <= i < 52 ==> close[i] != 'y');
    assert(open[15] == 'y');
    assert(forall|i: int| 16 <= i < 30 && i != 19 ==> open[i] != '<');
    assert(forall|i: int| 0 <= i < 15 && i != 10 ==> open[i] != '>');
    assert forall|a: Seq<char>, b: Seq<char>, at: int| #[trigger]
        pattern::occurs_at(a + open + b, close, at) implies at + close.len() <= a.len() || at
        >= a.len() + open.len() by {
        let text = a + open + b;
        let k = a.len() as int;
        assert(forall|i: int| 0 <= i < 52 ==> close[i] == text.subrange(at, at + 52)[i]);
        assert(forall|i: int| 0 <= i < 30 ==> text[k + i] == open[i]);
        if at < k + 30 && at + 52 > k {
            if at <= k + 15 < at + 52 {
                assert(close[k + 15 - at] == open[15]);
            } else if at > k + 15 {
                assert(close[0] == open[at - k]);
                assert(close[2] == open[21]);
            } else {
                assert(close[51] == open[at + 51 - k]);
                assert(close[49] == open[8]);
            }
        }
    }
}

proof fn lemma_close_pattern_and_open_tag()
    ensures
        pattern::never_joins(
            "<|end|><|start|>assistant<|channel|>final<|message|>"@,
            "<think>"@,
        ),
{
    let close = "<|end|><|start|>assistant<|channel|>final<|message|>"@;
    let tag = "<think>"@;
    reveal_strlit("<|end|><|start|>assistant<|channel|>final<|message|>");
    reveal_strlit("<think>");
    assert(close.len() == 52 && tag.len() == 7);
    assert(forall|i: int| 0 <= i < 52 ==> close[i] != 'k');
    assert(tag[5] == 'k');
    assert forall|a: Seq<char>, b: Seq<char>, at: int| #[trigger]
        pattern::occurs_at(a + tag + b, close, at) implies at + close.len() <= a.len() || at
        >= a.len() + tag.len() by {
        let text = a + tag + b;
        let k = a.len() as int;
        assert(forall|i: int| 0 <= i < 52 ==> close[i] == text.subrange(at, at + 52)[i]);
        assert(forall|i: int| 0 <= i < 7 ==> text[k + i] == tag[i]);
        if at < k + 7 && at + 52 > k {
            if at <= k + 5 < at + 52 {
                assert(close[k + 5 - at] == tag[5]);
            } else if at > k + 5 {
                assert(close[0] == tag[at - k]);
            } else {
                assert(close[51] == tag[at + 51 - k]);
            }
        }
    }
}

proof fn lemma_close_pattern_and_close_tag()
    ensures
        pattern::never_joins(
            "<|end|><|start|>assistant<|channel|>final<|message|>"@,
            "</think>"@,
        ),
{
    let close = "<|end|><|start|>assistant<|channel|>final<|message|>"@;
    let tag = "</think>"@;
    reveal_strlit("<|end|><|start|>assistant<|channel|>final<|message|>");
    reveal_strlit("</think>");
    assert(close.len() == 52 && tag.len() == 8);
    assert(forall|i: int| 0 <= i < 52 ==> close[i] != '/');
    assert forall|a: Seq<char>, b: Seq<char>, at: int| #[trigger]
        pattern::occurs_at(a + tag + b, close, at) implies at + close.len() <= a.len() || at
        >= a.len() + tag.len() by {
        let text = a + tag + b;
        let k = a.len() as int;
        assert(forall|i: int| 0 <= i < 52 ==> close[i] == text.subrange(at, at + 52)[i]);
        assert(forall|i: int| 0 <= i < 8 ==> text[k + i] == tag[i]);
        if at < k + 8 && at + 52 > k {
            if at <= k + 1 < at + 52 {
                assert(close[k + 1 - at] == tag[1]);
            } else if at > k + 1 {
                assert(close[0] == tag[at - k]);
            } else {
                assert(close[51] == tag[at + 51 - k]);
            }
        }
    }
}

proof fn lemma_close_tag_and_open_tag()
    ensures
        pattern::never_joins("</think>"@, "<think>"@),
{
    let close = "</think>"@;
    let open = "<think>"@;
    reveal_strlit("</think>");
    reveal_strlit("<think>");
    assert(close.len() == 8 && open.len() == 7);
    assert forall|a: Seq<char>, b: Seq<char>, at: int| #[trigger]
        pattern::occurs_at(a + open + b, close, at) implies at + close.len() <= a.len() || at
        >= a.len() + open.len() by {
        let text = a + open + b;
        let k = a.len() as int;
        assert(forall|i: int| 0 <= i < 8 ==> close[i] == text.subrange(at, at + 8)[i]);
        assert(forall|i: int| 0 <= i < 7 ==> text[k + i] == open[i]);
        if at < k + 7 && at + 8 > k {
            if at <= k {
                assert(close[k - at] == open[0]);
                assert(close[1] == open[1]);
            } else {
                assert(close[0] == open[at - k]);
            }
        }
    }
}

/// A tag in which nothing but the first character is a `<` does not overlap itself.
proof fn lemma_tag_never_overlaps(tag: Seq<char>)
    requires
        tag.len() > 0,
        tag[0] == '<',
        forall|i: int| 0 < i < tag.len() ==> tag[i] != '<',
    ensures
        pattern::never_overlaps(tag),
{
    assert forall|k: int| 0 < k < tag.len() implies #[trigger] tag.skip(k) != tag.take(
        tag.len() - k,
    ) by {
        assert(tag.skip(k)[0] == tag[k]);
        assert(tag.take(tag.len() - k)[0] == tag[0]);
    }
}

/// Where patterns and tags keep apart, a text with the close pattern leaves no
/// block open, one with the open pattern alone leaves one open, and any other
/// text leaves the state as it is.
pub proof fn law_state_follows_the_text(
    cfg: ReplacementConfig,
    opened: bool,
    input: Seq<char>,
)
    requires
        keep_apart(cfg),
    ensures
        opened_after(cfg, opened, input) == (if pattern::occurs(input, cfg.close_pattern@) {
            false
        } else if pattern::occurs(input, cfg.open_pattern@) {
            true
        } else {
            opened
        }),
{
    if !opened && pattern::occurs(input, cfg.open_pattern@) {
        pattern::lemma_replaced_first_elsewhere(
            input,
            cfg.open_pattern@,
            cfg.open_tag@,
            cfg.close_pattern@,
        );
    }
}

/// Where patterns and tags keep apart, nothing but the patterns is lost: putting
/// them back for the tags gives the input, if it held no tag itself.
pub proof fn law_patterns_can_be_put_back(
    cfg: ReplacementConfig,
    opened: bool,
    input: Seq<char>,
)
    requires
        keep_apart(cfg),
        !pattern::occurs(input, cfg.open_tag@),
        !pattern::occurs(input, cfg.close_tag@),
    ensures
        pattern::replaced_all(
            pattern::replaced_all(
                rewritten(cfg, opened, input),
                cfg.close_tag@,
                cfg.close_pattern@,
            ),
            cfg.open_tag@,
            cfg.open_pattern@,
        ) == input,
{
    let tagged = with_open_tag(cfg, opened, input);
    if !opened && pattern::occurs(input, cfg.open_pattern@) {
        pattern::lemma_replaced_first_makes_none(
            input,
            cfg.open_pattern@,
            cfg.open_tag@,
            cfg.close_tag@,
        );
        pattern::lemma_replaced_first_undone(input, cfg.open_pattern@, cfg.open_tag@);
    }
    assert(!pattern::occurs(tagged, cfg.close_tag@));
    if closes(cfg, opened, input) {
        pattern::lemma_replaced_all_undone(tagged, cfg.close_pattern@, cfg.close_tag@);
    }
}

proof fn lemma_replaced_first_around(
    before: Seq<char>,
    sought: Seq<char>,
    after: Seq<char>,
    with: Seq<char>,
)
    requires
        pattern::is_first(before + sought + after, sought, before.len() as int),
    ensures
        pattern::occurs(before + sought + after, sought),
        pattern::replaced_first(before + sought + after, sought, with) == before + with + after,
{
    let text = before + sought + after;
    pattern::lemma_first_unique(text, sought, before.len() as int);
    assert(text.take(before.len() as int) == before);
    assert(text.skip((before.len() + sought.len()) as int) == after);
}

/// Outside a block, text that does not have the open pattern comes out as it
/// went in, and no block is open.
pub proof fn law_text_outside_is_kept(cfg: ReplacementConfig, input: Seq<char>)
    requires
        forall|b: Seq<char>, a: Seq<char>| #[trigger] (b + cfg.open_pattern@ + a) != input,
    ensures
        rewritten(cfg, false, input) == input,
        !opened_after(cfg, false, input),
{
    pattern::law_text_without_the_pattern_is_kept(input, cfg.open_pattern@, cfg.open_tag@);
}

/// Inside a block, text that does not have the close pattern comes out as it
/// went in, and the block stays open.
pub proof fn law_text_inside_is_kept(cfg: ReplacementConfig, input: Seq<char>)
    requires
        forall|b: Seq<char>, a: Seq<char>| #[trigger] (b + cfg.close_pattern@ + a) != input,
    ensures
        rewritten(cfg, true, input) == input,
        opened_after(cfg, true, input),
{
    pattern::law_text_without_the_pattern_is_kept(input, cfg.close_pattern@, cfg.close_tag@);
}

/// Outside a block, text with the open pattern comes out as the same text with
/// the open tag in place of the leftmost one would inside a block.
pub proof fn law_opening_puts_the_tag(
    cfg: ReplacementConfig,
    before: Seq<char>,
    after: Seq<char>,
)
    requires
        forall|b: Seq<char>, a: Seq<char>| #[trigger]
            (b + cfg.open_pattern@ + a) == before + cfg.open_pattern@ + after ==> before.len()
                <= b.len(),
    ensures
        rewritten(cfg, false, before + cfg.open_pattern@ + after) == rewritten(
            cfg,
            true,
            before + cfg.open_tag@ + after,
        ),
        opened_after(cfg, false, before + cfg.open_pattern@ + after) == opened_after(
            cfg,
            true,
            before + cfg.open_tag@ + after,
        ),
{
    pattern::law_what_is_contained_occurs(before, cfg.open_pattern@, after);
    pattern::law_leftmost_pattern_is_replaced(before, cfg.open_pattern@, after, cfg.open_tag@);
}

/// Inside a block, the close tag takes the place of the leftmost close pattern,
/// what follows is treated in the same way, and the block is closed.
pub proof fn law_closing_puts_the_tag(
    cfg: ReplacementConfig,
    before: Seq<char>,
    after: Seq<char>,
)
    requires
        cfg.close_pattern@.len() > 0,
        forall|b: Seq<char>, a: Seq<char>| #[trigger]
            (b + cfg.close_pattern@ + a) == before + cfg.close_pattern@ + after ==> before.len()
                <= b.len(),
    ensures
        rewritten(cfg, true, before + cfg.close_pattern@ + after) == before + cfg.close_tag@
            + rewritten(cfg, true, after),
        !opened_after(cfg, true, before + cfg.close_pattern@ + after),
{
    pattern::law_what_is_contained_occurs(before, cfg.close_pattern@, after);
    pattern::law_leftmost_pattern_is_replaced(before, cfg.close_pattern@, after, cfg.close_tag@);
}

/// An empty close pattern closes every block, and its tag comes before every
/// character and at the end.
pub proof fn law_empty_close_pattern(cfg: ReplacementConfig, first: char, input: Seq<char>)
    requires
        cfg.close_pattern@.len() == 0,
    ensures
        rewritten(cfg, true, seq![]) == cfg.close_tag@,
        rewritten(cfg, true, seq![first] + input) == cfg.close_tag@ + seq![first] + rewritten(
            cfg,
            true,
            input,
        ),
        !opened_after(cfg, true, input),
{
    let none = Seq::<char>::empty();
    assert(cfg.close_pattern@ == none);
    assert(none + none + none == none);
    assert(none + none + input == input);
    assert(none + none + (seq![first] + input) == seq![first] + input);
    pattern::law_what_is_contained_occurs(none, none, none);
    pattern::law_what_is_contained_occurs(none, none, input);
    pattern::law_what_is_contained_occurs(none, none, seq![first] + input);
    pattern::law_empty_pattern(first, input, cfg.close_tag@);
}

} // verus!
