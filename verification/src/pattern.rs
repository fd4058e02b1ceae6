//! Finding and replacing a pattern in a text.
//!
//! Matches are taken from left to right and do not overlap. The empty pattern
//! matches before every character and at the end.

use vstd::prelude::*;

use crate::text::{chars_of, push_range};

verus! {

/// Whether `pattern` stands in `text` at position `at`.
pub open spec fn occurs_at(text: Seq<char>, pattern: Seq<char>, at: int) -> bool {
    0 <= at && at + pattern.len() <= text.len() && text.subrange(at, at + pattern.len()) == pattern
}

/// Whether `pattern` stands anywhere in `text`.
pub open spec fn occurs(text: Seq<char>, pattern: Seq<char>) -> bool {
    exists|at: int| occurs_at(text, pattern, at)
}

/// Whether `at` is the leftmost position at which `pattern` stands in `text`.
pub open spec fn is_first(text: Seq<char>, pattern: Seq<char>, at: int) -> bool {
    occurs_at(text, pattern, at) && forall|j: int| j < at ==> !occurs_at(text, pattern, j)
}

/// The leftmost position at which `pattern` stands in `text`.
pub open spec fn first_position(text: Seq<char>, pattern: Seq<char>) -> int
    recommends
        occurs(text, pattern),
{
    choose|at: int| is_first(text, pattern, at)
}

/// `text` with the leftmost occurrence of `pattern` replaced by `with`.
pub open spec fn replaced_first(text: Seq<char>, pattern: Seq<char>, with: Seq<char>) -> Seq<char> {
    if occurs(text, pattern) {
        let at = first_position(text, pattern);
        text.take(at) + with + text.skip(at + pattern.len())
    } else {
        text
    }
}

/// `with` before every character of `text` and at its end.
pub open spec fn interspersed(text: Seq<char>, with: Seq<char>) -> Seq<char>
    decreases text.len(),
{
    if text.len() == 0 {
        with
    } else {
        with + seq![text[0]] + interspersed(text.skip(1), with)
    }
}

/// `text` with every occurrence of `pattern` replaced by `with`.
pub open spec fn replaced_all(text: Seq<char>, pattern: Seq<char>, with: Seq<char>) -> Seq<char>
    decreases text.len(),
{
    if pattern.len() == 0 {
        interspersed(text, with)
    } else if occurs(text, pattern) {
        proof {
            lemma_first_exists(text, pattern);
        }
        let at = first_position(text, pattern);
        text.take(at) + with + replaced_all(text.skip(at + pattern.len()), pattern, with)
    } else {
        text
    }
}

/// A pattern that occurs has a leftmost occurrence.
pub proof fn lemma_first_exists(text: Seq<char>, pattern: Seq<char>)
    requires
        occurs(text, pattern),
    ensures
        is_first(text, pattern, first_position(text, pattern)),
{
    let at = choose|at: int| occurs_at(text, pattern, at);
    lemma_first_up_to(text, pattern, at);
}

proof fn lemma_first_up_to(text: Seq<char>, pattern: Seq<char>, at: int)
    requires
        occurs_at(text, pattern, at),
    ensures
        exists|first: int| is_first(text, pattern, first),
    decreases at,
{
    if exists|j: int| j < at && occurs_at(text, pattern, j) {
        let j = choose|j: int| j < at && occurs_at(text, pattern, j);
        lemma_first_up_to(text, pattern, j);
    } else {
        assert(is_first(text, pattern, at));
    }
}

/// The leftmost occurrence is unique.
pub proof fn lemma_first_unique(text: Seq<char>, pattern: Seq<char>, at: int)
    requires
        is_first(text, pattern, at),
    ensures
        occurs(text, pattern),
        first_position(text, pattern) == at,
{
    let first = first_position(text, pattern);
    assert(is_first(text, pattern, first));
}

/// Whether no occurrence of `pattern` in any text touches a `with` in it.
pub open spec fn never_joins(pattern: Seq<char>, with: Seq<char>) -> bool {
    forall|a: Seq<char>, b: Seq<char>, at: int|
        #[trigger] occurs_at(a + with + b, pattern, at) ==> at + pattern.len() <= a.len() || at
            >= a.len() + with.len()
}

/// Replacing every occurrence leaves none, where what is put in joins into no new one.
pub proof fn lemma_replaced_all_clears(text: Seq<char>, pattern: Seq<char>, with: Seq<char>)
    requires
        pattern.len() > 0,
        never_joins(pattern, with),
    ensures
        !occurs(replaced_all(text, pattern, with), pattern),
    decreases text.len(),
{
    if occurs(text, pattern) {
        lemma_first_exists(text, pattern);
        let first = first_position(text, pattern);
        let head = text.take(first);
        let rest = replaced_all(text.skip(first + pattern.len()), pattern, with);
        lemma_replaced_all_clears(text.skip(first + pattern.len()), pattern, with);
        let out = head + with + rest;
        assert forall|at: int| !occurs_at(out, pattern, at) by {
            if occurs_at(out, pattern, at) {
                if at + pattern.len() <= head.len() {
                    assert(out.subrange(at, at + pattern.len()) == text.subrange(
                        at,
                        at + pattern.len(),
                    ));
                    assert(occurs_at(text, pattern, at));
                } else {
                    let skipped = (head.len() + with.len()) as int;
                    assert(out.skip(skipped) == rest);
                    lemma_occurs_in_rest(out, pattern, skipped, at);
                    assert(occurs_at(rest, pattern, at - skipped));
                }
            }
        }
    }
}

/// An occurrence in the rest of a text is an occurrence in the text.
proof fn lemma_occurs_in_rest(text: Seq<char>, pattern: Seq<char>, from: int, at: int)
    requires
        0 <= from <= text.len(),
        from <= at,
    ensures
        occurs_at(text.skip(from), pattern, at - from) == occurs_at(text, pattern, at),
{
    if at + pattern.len() <= text.len() {
        assert(text.skip(from).subrange(at - from, at - from + pattern.len()) == text.subrange(
            at,
            at + pattern.len(),
        ));
    }
}

/// Whether no two occurrences of `pattern` can share characters.
pub open spec fn never_overlaps(pattern: Seq<char>) -> bool {
    forall|k: int|
        0 < k < pattern.len() ==> #[trigger] pattern.skip(k) != pattern.take(pattern.len() - k)
}

/// Putting `with` for the leftmost `pattern` brings in no `other` that `with`
/// cannot become part of.
pub proof fn lemma_replaced_first_makes_none(
    text: Seq<char>,
    pattern: Seq<char>,
    with: Seq<char>,
    other: Seq<char>,
)
    requires
        never_joins(other, with),
        !occurs(text, other),
    ensures
        !occurs(replaced_first(text, pattern, with), other),
{
    if occurs(text, pattern) {
        lemma_first_exists(text, pattern);
        let first = first_position(text, pattern);
        let head = text.take(first);
        let rest = text.skip(first + pattern.len());
        let out = head + with + rest;
        assert forall|at: int| !occurs_at(out, other, at) by {
            if occurs_at(out, other, at) {
                if at + other.len() <= head.len() {
                    assert(out.subrange(at, at + other.len()) == text.subrange(
                        at,
                        at + other.len(),
                    ));
                    assert(occurs_at(text, other, at));
                } else {
                    let back = at - with.len() + pattern.len();
                    assert(out.subrange(at, at + other.len()) == text.subrange(
                        back,
                        back + other.len(),
                    ));
                    assert(occurs_at(text, other, back));
                }
            }
        }
    }
}

/// Putting `with` for the leftmost `pattern` neither brings in nor takes away an
/// `other` that neither of the two can become part of.
pub proof fn lemma_replaced_first_elsewhere(
    text: Seq<char>,
    pattern: Seq<char>,
    with: Seq<char>,
    other: Seq<char>,
)
    requires
        never_joins(other, pattern),
        never_joins(other, with),
    ensures
        occurs(replaced_first(text, pattern, with), other) == occurs(text, other),
{
    if !occurs(text, other) {
        lemma_replaced_first_makes_none(text, pattern, with, other);
    } else if occurs(text, pattern) {
        lemma_first_exists(text, pattern);
        let first = first_position(text, pattern);
        let head = text.take(first);
        let rest = text.skip(first + pattern.len());
        let out = head + with + rest;
        assert(text == head + pattern + rest);
        let at = choose|at: int| occurs_at(text, other, at);
        assert(occurs_at(head + pattern + rest, other, at));
        if at + other.len() <= head.len() {
            assert(text.subrange(at, at + other.len()) == out.subrange(at, at + other.len()));
            assert(occurs_at(out, other, at));
        } else {
            let moved = at - pattern.len() + with.len();
            assert(text.subrange(at, at + other.len()) == out.subrange(
                moved,
                moved + other.len(),
            ));
            assert(occurs_at(out, other, moved));
        }
    }
}

/// Behind a head without `pattern`, the leftmost `pattern` is the one that was
/// put there, if it does not overlap itself.
proof fn lemma_first_behind(head: Seq<char>, pattern: Seq<char>, rest: Seq<char>)
    requires
        pattern.len() > 0,
        never_overlaps(pattern),
        !occurs(head, pattern),
    ensures
        occurs(head + pattern + rest, pattern),
        first_position(head + pattern + rest, pattern) == head.len(),
{
    let text = head + pattern + rest;
    let k = head.len() as int;
    assert(text.subrange(k, k + pattern.len()) == pattern);
    assert forall|j: int| j < k implies !occurs_at(text, pattern, j) by {
        if occurs_at(text, pattern, j) {
            if j + pattern.len() <= k {
                assert(head.subrange(j, j + pattern.len()) == text.subrange(
                    j,
                    j + pattern.len(),
                ));
                assert(occurs_at(head, pattern, j));
            } else {
                let d = k - j;
                assert(text.subrange(j, j + pattern.len()).skip(d) == pattern.take(
                    pattern.len() - d,
                ));
                assert(pattern.skip(d) == pattern.take(pattern.len() - d));
            }
        }
    }
    lemma_first_unique(text, pattern, k);
}

/// An occurrence in a stretch of a text is an occurrence in the text.
proof fn lemma_occurs_in_stretch(text: Seq<char>, pattern: Seq<char>, from: int, to: int)
    requires
        0 <= from <= to <= text.len(),
        occurs(text.subrange(from, to), pattern),
    ensures
        occurs(text, pattern),
{
    let part = text.subrange(from, to);
    let at = choose|at: int| occurs_at(part, pattern, at);
    assert(text.subrange(from + at, from + at + pattern.len()) == part.subrange(
        at,
        at + pattern.len(),
    ));
    assert(occurs_at(text, pattern, from + at));
}

/// Replacing the leftmost `pattern` by a `with` that the text did not hold is
/// undone by replacing every `with`: there is no other.
pub proof fn lemma_replaced_first_undone(text: Seq<char>, pattern: Seq<char>, with: Seq<char>)
    requires
        with.len() > 0,
        never_overlaps(with),
        occurs(text, pattern),
        !occurs(text, with),
    ensures
        replaced_all(replaced_first(text, pattern, with), with, pattern) == text,
{
    lemma_first_exists(text, pattern);
    let first = first_position(text, pattern);
    let head = text.take(first);
    let rest = text.skip(first + pattern.len());
    let out = head + with + rest;
    if occurs(head, with) {
        assert(head == text.subrange(0, first));
        lemma_occurs_in_stretch(text, with, 0, first);
    }
    if occurs(rest, with) {
        assert(rest == text.subrange(first + pattern.len(), text.len() as int));
        lemma_occurs_in_stretch(text, with, first + pattern.len(), text.len() as int);
    }
    lemma_first_behind(head, with, rest);
    assert(out.take(head.len() as int) == head);
    assert(out.skip((head.len() + with.len()) as int) == rest);
    assert(replaced_all(rest, with, pattern) == rest);
    assert(head + pattern + rest == text);
}

/// Replacing every `pattern` by a `with` that the text did not hold is undone by
/// replacing every `with`.
pub proof fn lemma_replaced_all_undone(text: Seq<char>, pattern: Seq<char>, with: Seq<char>)
    requires
        pattern.len() > 0,
        with.len() > 0,
        never_overlaps(with),
        !occurs(text, with),
    ensures
        replaced_all(replaced_all(text, pattern, with), with, pattern) == text,
    decreases text.len(),
{
    if occurs(text, pattern) {
        lemma_first_exists(text, pattern);
        let first = first_position(text, pattern);
        let head = text.take(first);
        let tail = text.skip(first + pattern.len());
        let rest = replaced_all(tail, pattern, with);
        let out = head + with + rest;
        if occurs(head, with) {
            assert(head == text.subrange(0, first));
            lemma_occurs_in_stretch(text, with, 0, first);
        }
        if occurs(tail, with) {
            assert(tail == text.subrange(first + pattern.len(), text.len() as int));
            lemma_occurs_in_stretch(text, with, first + pattern.len(), text.len() as int);
        }
        lemma_replaced_all_undone(tail, pattern, with);
        lemma_first_behind(head, with, rest);
        assert(out.take(head.len() as int) == head);
        assert(out.skip((head.len() + with.len()) as int) == rest);
        assert(replaced_all(out, with, pattern) == head + pattern + tail);
        assert(head + pattern + tail == text);
    }
}

/// Whether `pattern` stands in `text` at `at`.
fn matches_at(text: &Vec<char>, pattern: &Vec<char>, at: usize) -> (r: bool)
    ensures
        r == occurs_at(text@, pattern@, at as int),
{
    if at > text.len() || pattern.len() > text.len() - at {
        return false;
    }
    let mut i: usize = 0;
    while i < pattern.len()
        invariant
            at <= text.len(),
            i <= pattern.len() <= text.len() - at,
            forall|j: int| 0 <= j < i ==> text@[at + j] == pattern@[j],
        decreases pattern.len() - i,
    {
        if text[at + i] != pattern[i] {
            assert(text@.subrange(at as int, at + pattern@.len())[i as int] != pattern@[i as int]);
            return false;
        }
        i = i + 1;
    }
    assert(text@.subrange(at as int, at + pattern@.len()) == pattern@);
    true
}

/// The leftmost position not before `from` at which `pattern` stands in `text`.
fn find_from(text: &Vec<char>, pattern: &Vec<char>, from: usize) -> (found: Option<usize>)
    requires
        from <= text.len(),
    ensures
        match found {
            Some(at) => {
                &&& occurs(text@.skip(from as int), pattern@)
                &&& at == from + first_position(text@.skip(from as int), pattern@)
                &&& from <= at <= at + pattern.len() <= text.len()
            },
            None => !occurs(text@.skip(from as int), pattern@),
        },
{
    let ghost rest = text@.skip(from as int);
    let mut at: usize = from;
    loop
        invariant
            from <= at <= text.len(),
            rest == text@.skip(from as int),
            forall|j: int| from <= j < at ==> !occurs_at(text@, pattern@, j),
        decreases text.len() - at,
    {
        if matches_at(text, pattern, at) {
            proof {
                lemma_occurs_in_rest(text@, pattern@, from as int, at as int);
                assert forall|j: int| j < at - from implies !occurs_at(rest, pattern@, j) by {
                    if 0 <= j {
                        lemma_occurs_in_rest(text@, pattern@, from as int, from + j);
                    }
                }
                lemma_first_unique(rest, pattern@, at - from);
            }
            return Some(at);
        }
        if at == text.len() {
            proof {
                assert forall|j: int| !occurs_at(rest, pattern@, j) by {
                    if 0 <= j <= rest.len() {
                        lemma_occurs_in_rest(text@, pattern@, from as int, from + j);
                    }
                }
            }
            return None;
        }
        at = at + 1;
    }
}

/// Whether `text` contains `pattern`.
pub fn contains(text: &str, pattern: &str) -> (r: bool)
    ensures
        r == occurs(text@, pattern@),
{
    let chars = chars_of(text);
    assert(chars@.skip(0) == chars@);
    match find_from(&chars, &chars_of(pattern), 0) {
        Some(_) => true,
        None => false,
    }
}

/// Replaces the leftmost occurrence of `pattern` in `text` by `with`.
pub fn replace_first(text: &str, pattern: &str, with: &str) -> (out: String)
    ensures
        out@ == replaced_first(text@, pattern@, with@),
{
    let chars = chars_of(text);
    let sought = chars_of(pattern);
    assert(chars@.skip(0) == chars@);
    let mut out = String::new();
    match find_from(&chars, &sought, 0) {
        Some(at) => {
            push_range(&mut out, &chars, 0, at);
            out.append(with);
            push_range(&mut out, &chars, at + sought.len(), chars.len());
        },
        None => {
            push_range(&mut out, &chars, 0, chars.len());
        },
    }
    out
}

/// `with` before every character of `text` and at its end.
fn intersperse(chars: &Vec<char>, with: &str) -> (out: String)
    ensures
        out@ == interspersed(chars@, with@),
{
    let mut out = String::new();
    let mut i: usize = 0;
    assert(chars@.skip(0) == chars@);
    while i < chars.len()
        invariant
            i <= chars.len(),
            interspersed(chars@, with@) == out@ + interspersed(chars@.skip(i as int), with@),
        decreases chars.len() - i,
    {
        assert(chars@.skip(i as int).skip(1) == chars@.skip(i + 1));
        out.append(with);
        out.push(chars[i]);
        i = i + 1;
    }
    out.append(with);
    out
}

/// Replaces every occurrence of `pattern` in `text` by `with`.
pub fn replace_all(text: &str, pattern: &str, with: &str) -> (out: String)
    ensures
        out@ == replaced_all(text@, pattern@, with@),
{
    let chars = chars_of(text);
    let sought = chars_of(pattern);
    if sought.len() == 0 {
        return intersperse(&chars, with);
    }
    let mut out = String::new();
    let mut from: usize = 0;
    assert(chars@.skip(0) == chars@);
    loop
        invariant
            from <= chars.len(),
            sought.len() > 0,
            chars@ == text@,
            sought@ == pattern@,
            replaced_all(chars@, sought@, with@) == out@ + replaced_all(
                chars@.skip(from as int),
                sought@,
                with@,
            ),
        decreases chars.len() - from,
    {
        let ghost rest = chars@.skip(from as int);
        match find_from(&chars, &sought, from) {
            Some(at) => {
                push_range(&mut out, &chars, from, at);
                out.append(with);
                proof {
                    assert(rest.take(at - from) == chars@.subrange(from as int, at as int));
                    assert(rest.skip(at - from + sought@.len()) == chars@.skip(at + sought@.len()));
                }
                from = at + sought.len();
            },
            None => {
                push_range(&mut out, &chars, from, chars.len());
                assert(rest == chars@.subrange(from as int, chars@.len() as int));
                return out;
            },
        }
    }
}

/// A pattern occurs in every text that has it between two stretches of text.
pub proof fn law_what_is_contained_occurs(
    before: Seq<char>,
    pattern: Seq<char>,
    after: Seq<char>,
)
    ensures
        occurs(before + pattern + after, pattern),
{
    let text = before + pattern + after;
    let at = before.len() as int;
    assert(text.subrange(at, at + pattern.len()) == pattern);
    assert(occurs_at(text, pattern, at));
}

/// A pattern occurs in no other text.
pub proof fn law_what_occurs_is_contained(text: Seq<char>, pattern: Seq<char>)
    requires
        occurs(text, pattern),
    ensures
        exists|before: Seq<char>, after: Seq<char>| text == #[trigger] (before + pattern + after),
{
    let at = choose|at: int| occurs_at(text, pattern, at);
    let before = text.take(at);
    let after = text.skip(at + pattern.len());
    assert(text == before + pattern + after);
}

/// Where no other place is further left, a pattern between two stretches of text
/// is the leftmost.
pub proof fn lemma_leftmost(before: Seq<char>, pattern: Seq<char>, after: Seq<char>)
    requires
        forall|b: Seq<char>, a: Seq<char>| #[trigger]
            (b + pattern + a) == before + pattern + after ==> before.len() <= b.len(),
    ensures
        is_first(before + pattern + after, pattern, before.len() as int),
{
    let text = before + pattern + after;
    let first = before.len() as int;
    assert(text.subrange(first, first + pattern.len()) == pattern);
    assert forall|j: int| j < first implies !occurs_at(text, pattern, j) by {
        if occurs_at(text, pattern, j) {
            let b = text.take(j);
            let a = text.skip(j + pattern.len());
            assert(b + pattern + a == text);
        }
    }
}

/// The leftmost pattern is replaced and all else is kept; where every pattern is
/// replaced, what follows the leftmost one is treated in the same way.
pub proof fn law_leftmost_pattern_is_replaced(
    before: Seq<char>,
    pattern: Seq<char>,
    after: Seq<char>,
    with: Seq<char>,
)
    requires
        forall|b: Seq<char>, a: Seq<char>| #[trigger]
            (b + pattern + a) == before + pattern + after ==> before.len() <= b.len(),
    ensures
        replaced_first(before + pattern + after, pattern, with) == before + with + after,
        pattern.len() > 0 ==> replaced_all(before + pattern + after, pattern, with) == before
            + with + replaced_all(after, pattern, with),
{
    let text = before + pattern + after;
    lemma_leftmost(before, pattern, after);
    lemma_first_unique(text, pattern, before.len() as int);
    assert(text.take(before.len() as int) == before);
    assert(text.skip((before.len() + pattern.len()) as int) == after);
}

/// A text that does not have the pattern is left as it is.
pub proof fn law_text_without_the_pattern_is_kept(
    text: Seq<char>,
    pattern: Seq<char>,
    with: Seq<char>,
)
    requires
        forall|b: Seq<char>, a: Seq<char>| #[trigger] (b + pattern + a) != text,
    ensures
        !occurs(text, pattern),
        replaced_first(text, pattern, with) == text,
        replaced_all(text, pattern, with) == text,
{
    if occurs(text, pattern) {
        law_what_occurs_is_contained(text, pattern);
    }
    if pattern.len() == 0 {
        assert(text + pattern + Seq::<char>::empty() == text);
    }
}

/// The empty pattern is found before every character and at the end.
pub proof fn law_empty_pattern(first: char, text: Seq<char>, with: Seq<char>)
    ensures
        replaced_all(seq![], seq![], with) == with,
        replaced_all(seq![first] + text, seq![], with) == with + seq![first] + replaced_all(
            text,
            seq![],
            with,
        ),
{
    assert((seq![first] + text).skip(1) == text);
}

} // verus!
