//! What holds of a whole event stream.

use vstd::prelude::*;
use vstd::utf8::*;

use crate::config::ReplacementConfig;
use crate::pattern;
use crate::replacer;
use crate::sse;

verus! {

/// The complete events of `bytes`, in order: the events that
/// [`poll_next`](crate::sse::SseTransformer::poll_next) takes out one by one.
pub open spec fn events(bytes: Seq<u8>) -> Seq<Seq<u8>>
    decreases bytes.len(),
{
    if sse::has_event(bytes) {
        proof {
            sse::lemma_first_boundary(bytes);
        }
        seq![sse::first_event(bytes)] + events(sse::after_first_event(bytes))
    } else {
        seq![]
    }
}

/// What follows the last complete event of `bytes`.
pub open spec fn remainder(bytes: Seq<u8>) -> Seq<u8>
    decreases bytes.len(),
{
    if sse::has_event(bytes) {
        proof {
            sse::lemma_first_boundary(bytes);
        }
        remainder(sse::after_first_event(bytes))
    } else {
        bytes
    }
}

/// The pieces one after the other.
pub open spec fn joined(pieces: Seq<Seq<u8>>) -> Seq<u8>
    decreases pieces.len(),
{
    if pieces.len() == 0 {
        seq![]
    } else {
        joined(pieces.drop_last()) + pieces.last()
    }
}

/// Whether a block is open once `raw_events` have been rewritten in order.
pub open spec fn opened_through(
    cfg: ReplacementConfig,
    opened: bool,
    raw_events: Seq<Seq<u8>>,
) -> bool
    decreases raw_events.len(),
{
    if raw_events.len() == 0 {
        opened
    } else {
        sse::event_opened(
            cfg,
            opened_through(cfg, opened, raw_events.drop_last()),
            raw_events.last(),
        )
    }
}

/// What is handed on for `raw_events`, in order.
pub open spec fn outputs(
    cfg: ReplacementConfig,
    opened: bool,
    raw_events: Seq<Seq<u8>>,
) -> Seq<Seq<u8>>
    decreases raw_events.len(),
{
    if raw_events.len() == 0 {
        seq![]
    } else {
        outputs(cfg, opened, raw_events.drop_last()).push(
            sse::event_out(
                cfg,
                opened_through(cfg, opened, raw_events.drop_last()),
                raw_events.last(),
            ),
        )
    }
}

/// A stream under way: what waits, whether a block is open, and what was handed on.
#[verifier::ext_equal]
pub struct Progress {
    pub waiting: Seq<u8>,
    pub opened: bool,
    pub out: Seq<Seq<u8>>,
}

/// A stream of which nothing has come yet.
pub open spec fn fresh() -> Progress {
    Progress { waiting: seq![], opened: false, out: seq![] }
}

/// The stream once `chunk` has come and every complete event has been handed on.
pub open spec fn after_chunk(cfg: ReplacementConfig, at: Progress, chunk: Seq<u8>) -> Progress {
    let fed = at.waiting + chunk;
    Progress {
        waiting: remainder(fed),
        opened: opened_through(cfg, at.opened, events(fed)),
        out: at.out + outputs(cfg, at.opened, events(fed)),
    }
}

/// The stream once `chunks` have come in order.
pub open spec fn after_chunks(
    cfg: ReplacementConfig,
    at: Progress,
    chunks: Seq<Seq<u8>>,
) -> Progress
    decreases chunks.len(),
{
    if chunks.len() == 0 {
        at
    } else {
        after_chunk(cfg, after_chunks(cfg, at, chunks.drop_last()), chunks.last())
    }
}

/// The stream once the upstream has closed and the rest has been handed on.
pub open spec fn after_close(cfg: ReplacementConfig, at: Progress) -> Progress {
    if at.waiting.len() == 0 {
        at
    } else {
        Progress {
            waiting: seq![],
            opened: sse::event_opened(cfg, at.opened, at.waiting),
            out: at.out.push(sse::event_out(cfg, at.opened, at.waiting)),
        }
    }
}

proof fn lemma_joined_append(a: Seq<Seq<u8>>, b: Seq<Seq<u8>>)
    ensures
        joined(a + b) == joined(a) + joined(b),
    decreases b.len(),
{
    if b.len() == 0 {
        assert(a + b == a);
    } else {
        assert((a + b).drop_last() == a + b.drop_last());
        lemma_joined_append(a, b.drop_last());
        assert((a + b).last() == b.last());
        assert(joined(a + b) == joined(a) + joined(b.drop_last()) + b.last());
    }
}

proof fn lemma_outputs_append(
    cfg: ReplacementConfig,
    opened: bool,
    a: Seq<Seq<u8>>,
    b: Seq<Seq<u8>>,
)
    ensures
        opened_through(cfg, opened, a + b) == opened_through(
            cfg,
            opened_through(cfg, opened, a),
            b,
        ),
        outputs(cfg, opened, a + b) == outputs(cfg, opened, a) + outputs(
            cfg,
            opened_through(cfg, opened, a),
            b,
        ),
    decreases b.len(),
{
    if b.len() == 0 {
        assert(a + b == a);
    } else {
        assert((a + b).drop_last() == a + b.drop_last());
        assert((a + b).last() == b.last());
        lemma_outputs_append(cfg, opened, a, b.drop_last());
    }
}

/// What is handed on is handed on event by event: first what comes of the
/// first event, then what comes of the rest in the state that it has left.
pub proof fn law_events_are_handed_on_in_order(
    cfg: ReplacementConfig,
    opened: bool,
    bytes: Seq<u8>,
)
    requires
        sse::has_event(bytes),
    ensures
        outputs(cfg, opened, events(bytes)) == seq![
            sse::event_out(cfg, opened, sse::first_event(bytes)),
        ] + outputs(
            cfg,
            sse::event_opened(cfg, opened, sse::first_event(bytes)),
            events(sse::after_first_event(bytes)),
        ),
        opened_through(cfg, opened, events(bytes)) == opened_through(
            cfg,
            sse::event_opened(cfg, opened, sse::first_event(bytes)),
            events(sse::after_first_event(bytes)),
        ),
        remainder(bytes) == remainder(sse::after_first_event(bytes)),
{
    sse::lemma_first_boundary(bytes);
    let first = seq![sse::first_event(bytes)];
    assert(first.drop_last() == Seq::<Seq<u8>>::empty());
    assert(opened_through(cfg, opened, first.drop_last()) == opened);
    assert(outputs(cfg, opened, first.drop_last()) == Seq::<Seq<u8>>::empty());
    assert(outputs(cfg, opened, first) == seq![
        sse::event_out(cfg, opened, sse::first_event(bytes)),
    ]);
    lemma_outputs_append(cfg, opened, first, events(sse::after_first_event(bytes)));
}

/// The stream once the first complete event that waits has been handed on, as
/// [`poll_next`](crate::sse::SseTransformer::poll_next) does where there is one.
pub open spec fn after_event(cfg: ReplacementConfig, at: Progress) -> Progress {
    let raw = sse::first_event(at.waiting);
    Progress {
        waiting: sse::after_first_event(at.waiting),
        opened: sse::event_opened(cfg, at.opened, raw),
        out: at.out.push(sse::event_out(cfg, at.opened, raw)),
    }
}

/// The stream once events have been handed on, one after the other, until none
/// is complete.
pub open spec fn after_polls(cfg: ReplacementConfig, at: Progress) -> Progress
    decreases at.waiting.len(),
{
    if sse::has_event(at.waiting) {
        proof {
            sse::lemma_first_boundary(at.waiting);
        }
        after_polls(cfg, after_event(cfg, at))
    } else {
        at
    }
}

/// Handing on one event after the other until none is complete hands on every
/// event of the bytes that wait, each in the state that the one before has left.
pub proof fn law_polling_hands_on_every_event(
    cfg: ReplacementConfig,
    at: Progress,
    chunk: Seq<u8>,
)
    ensures
        after_polls(
            cfg,
            Progress { waiting: at.waiting + chunk, opened: at.opened, out: at.out },
        ) == after_chunk(cfg, at, chunk),
{
    lemma_polls(
        cfg,
        Progress { waiting: at.waiting + chunk, opened: at.opened, out: at.out },
    );
}

proof fn lemma_polls(cfg: ReplacementConfig, at: Progress)
    ensures
        after_polls(cfg, at) == (Progress {
            waiting: remainder(at.waiting),
            opened: opened_through(cfg, at.opened, events(at.waiting)),
            out: at.out + outputs(cfg, at.opened, events(at.waiting)),
        }),
    decreases at.waiting.len(),
{
    if sse::has_event(at.waiting) {
        sse::lemma_first_boundary(at.waiting);
        law_events_are_handed_on_in_order(cfg, at.opened, at.waiting);
        lemma_polls(cfg, after_event(cfg, at));
        let first = sse::event_out(cfg, at.opened, sse::first_event(at.waiting));
        let rest = outputs(
            cfg,
            after_event(cfg, at).opened,
            events(after_event(cfg, at).waiting),
        );
        assert(at.out.push(first) + rest == at.out + (seq![first] + rest));
    } else {
        assert(at.out + outputs(cfg, at.opened, events(at.waiting)) == at.out);
    }
}

/// The sentinel that ends a completion, and what is not UTF-8, is handed on
/// byte for byte and changes nothing for the events that follow.
pub proof fn law_sentinel_is_kept(cfg: ReplacementConfig, opened: bool, raw: Seq<u8>)
    requires
        valid_utf8(raw) ==> sse::is_done(decode_utf8(raw)),
    ensures
        sse::event_out(cfg, opened, raw) == raw,
        sse::event_opened(cfg, opened, raw) == opened,
{
}

/// An event that is complete stays the first event, whatever follows.
proof fn lemma_first_event_append(a: Seq<u8>, b: Seq<u8>)
    requires
        sse::has_event(a),
    ensures
        sse::has_event(a + b),
        sse::first_event(a + b) == sse::first_event(a),
        sse::after_first_event(a + b) == sse::after_first_event(a) + b,
        sse::after_first_event(a).len() < a.len(),
{
    sse::lemma_first_boundary(a);
    let at = sse::first_boundary(a);
    assert forall|j: int| j < at implies !sse::boundary_at(a + b, j) by {
        assert(!sse::boundary_at(a, j));
    }
    sse::lemma_first_boundary_unique(a + b, at);
    assert((a + b).take(at + 2) == a.take(at + 2));
    assert((a + b).skip(at + 2) == a.skip(at + 2) + b);
}

/// The events of two stretches of bytes are those of the first, and then those
/// of its remainder with the second.
proof fn lemma_events_append(a: Seq<u8>, b: Seq<u8>)
    ensures
        events(a + b) == events(a) + events(remainder(a) + b),
        remainder(a + b) == remainder(remainder(a) + b),
    decreases a.len(),
{
    if sse::has_event(a) {
        lemma_first_event_append(a, b);
        lemma_events_append(sse::after_first_event(a), b);
        assert(events(a + b) == seq![sse::first_event(a)] + (events(sse::after_first_event(a))
            + events(remainder(a) + b)));
    } else {
        assert(events(a) + events(a + b) == events(a + b));
    }
}

/// The events and what remains are the bytes themselves: nothing is lost,
/// doubled or moved.
pub proof fn law_events_partition_the_bytes(bytes: Seq<u8>)
    ensures
        joined(events(bytes)) + remainder(bytes) == bytes,
        !sse::has_event(remainder(bytes)),
    decreases bytes.len(),
{
    if sse::has_event(bytes) {
        sse::lemma_first_boundary(bytes);
        let first = sse::first_event(bytes);
        let rest = sse::after_first_event(bytes);
        law_events_partition_the_bytes(rest);
        lemma_joined_append(seq![first], events(rest));
        lemma_joined_single(first);
        assert(first + rest == bytes);
        assert(joined(events(bytes)) + remainder(bytes) == first + (joined(events(rest))
            + remainder(rest)));
    } else {
        assert(joined(events(bytes)) + bytes == bytes);
    }
}

proof fn lemma_joined_single(piece: Seq<u8>)
    ensures
        joined(seq![piece]) == piece,
{
    let one = seq![piece];
    assert(one.drop_last() == Seq::<Seq<u8>>::empty());
    assert(joined(one.drop_last()) == Seq::<u8>::empty());
    assert(joined(one) == joined(one.drop_last()) + piece);
}

/// Every complete event ends with the first empty line in it.
pub proof fn law_events_end_with_an_empty_line(bytes: Seq<u8>, i: int)
    requires
        0 <= i < events(bytes).len(),
    ensures
        events(bytes)[i].len() >= 2,
        sse::is_first_boundary(events(bytes)[i], events(bytes)[i].len() - 2),
    decreases bytes.len(),
{
    sse::lemma_first_boundary(bytes);
    if i == 0 {
        let at = sse::first_boundary(bytes);
        let first = sse::first_event(bytes);
        assert forall|j: int| j < at implies !sse::boundary_at(first, j) by {
            assert(!sse::boundary_at(bytes, j));
        }
    } else {
        law_events_end_with_an_empty_line(sse::after_first_event(bytes), i - 1);
    }
}

/// How the upstream cuts its bytes into chunks makes no difference: what is
/// handed on, what waits and whether a block is open depend on the bytes alone.
pub proof fn law_chunking_makes_no_difference(cfg: ReplacementConfig, chunks: Seq<Seq<u8>>)
    ensures
        after_chunks(cfg, fresh(), chunks) == after_chunk(cfg, fresh(), joined(chunks)),
    decreases chunks.len(),
{
    if chunks.len() == 0 {
        assert(fresh().waiting + joined(chunks) == Seq::<u8>::empty());
        assert(!sse::has_event(Seq::<u8>::empty()));
        assert(after_chunk(cfg, fresh(), joined(chunks)) =~= fresh());
    } else {
        let before = joined(chunks.drop_last());
        let last = chunks.last();
        law_chunking_makes_no_difference(cfg, chunks.drop_last());
        assert(fresh().waiting + before == before);
        assert(fresh().waiting + joined(chunks) == before + last);
        lemma_events_append(before, last);
        lemma_outputs_append(
            cfg,
            false,
            events(before),
            events(remainder(before) + last),
        );
        assert(after_chunks(cfg, fresh(), chunks) =~= after_chunk(cfg, fresh(), joined(chunks)));
    }
}

/// Whether `raw` opens no block: it is handed on as it is anyway, or it does not
/// hold the open pattern.
pub open spec fn is_plain(cfg: ReplacementConfig, raw: Seq<u8>) -> bool {
    sse::is_left_alone(raw) || !pattern::occurs(decode_utf8(raw), cfg.open_pattern@)
}

proof fn lemma_plain_event(cfg: ReplacementConfig, raw: Seq<u8>)
    requires
        is_plain(cfg, raw),
    ensures
        sse::event_out(cfg, false, raw) == raw,
        !sse::event_opened(cfg, false, raw),
{
    if !sse::is_left_alone(raw) {
        replacer::law_outside_a_block(cfg, decode_utf8(raw));
        decode_utf8_encode_utf8(raw);
    }
}

proof fn lemma_plain_events(cfg: ReplacementConfig, raw_events: Seq<Seq<u8>>)
    requires
        forall|i: int| 0 <= i < raw_events.len() ==> is_plain(cfg, #[trigger] raw_events[i]),
    ensures
        outputs(cfg, false, raw_events) == raw_events,
        !opened_through(cfg, false, raw_events),
    decreases raw_events.len(),
{
    if raw_events.len() > 0 {
        assert forall|i: int| 0 <= i < raw_events.drop_last().len() implies is_plain(
            cfg,
            #[trigger] raw_events.drop_last()[i],
        ) by {
            assert(raw_events.drop_last()[i] == raw_events[i]);
        }
        lemma_plain_events(cfg, raw_events.drop_last());
        lemma_plain_event(cfg, raw_events.last());
    }
}

/// A stream in which no event that is rewritten holds the open pattern passes
/// byte for byte, whatever else its events hold.
pub proof fn law_plain_stream_passes(cfg: ReplacementConfig, chunks: Seq<Seq<u8>>)
    requires
        forall|i: int|
            0 <= i < events(joined(chunks)).len() ==> is_plain(
                cfg,
                #[trigger] events(joined(chunks))[i],
            ),
        is_plain(cfg, remainder(joined(chunks))),
    ensures
        joined(after_close(cfg, after_chunks(cfg, fresh(), chunks)).out) == joined(chunks),
        !after_close(cfg, after_chunks(cfg, fresh(), chunks)).opened,
{
    let bytes = joined(chunks);
    let fed = after_chunks(cfg, fresh(), chunks);
    law_chunking_makes_no_difference(cfg, chunks);
    assert(fresh().waiting + bytes == bytes);
    law_events_partition_the_bytes(bytes);
    lemma_plain_events(cfg, events(bytes));
    assert(fed.out == events(bytes));
    lemma_plain_event(cfg, remainder(bytes));
    if fed.waiting.len() == 0 {
        assert(joined(events(bytes)) + remainder(bytes) == joined(events(bytes)));
    } else {
        let out = fed.out.push(remainder(bytes));
        assert(out.drop_last() == events(bytes));
        assert(out.last() == remainder(bytes));
    }
}

/// Whether `part` stands in `bytes` at position `at`.
pub open spec fn part_at(bytes: Seq<u8>, part: Seq<u8>, at: int) -> bool {
    0 <= at && at + part.len() <= bytes.len() && bytes.subrange(at, at + part.len()) == part
}

/// Whether `part` stands anywhere in `bytes`.
pub open spec fn holds(bytes: Seq<u8>, part: Seq<u8>) -> bool {
    exists|at: int| part_at(bytes, part, at)
}

proof fn lemma_holds_in_part(bytes: Seq<u8>, middle: Seq<u8>, part: Seq<u8>)
    requires
        holds(bytes, middle),
        holds(middle, part),
    ensures
        holds(bytes, part),
{
    let outer = choose|at: int| part_at(bytes, middle, at);
    let inner = choose|at: int| part_at(middle, part, at);
    assert(bytes.subrange(outer + inner, outer + inner + part.len()) == middle.subrange(
        inner,
        inner + part.len(),
    ));
    assert(part_at(bytes, part, outer + inner));
}

/// Every event stands in the bytes.
proof fn lemma_bytes_hold_their_events(bytes: Seq<u8>, i: int)
    requires
        0 <= i < events(bytes).len(),
    ensures
        holds(bytes, events(bytes)[i]),
    decreases bytes.len(),
{
    sse::lemma_first_boundary(bytes);
    let end = sse::first_boundary(bytes) + 2;
    if i == 0 {
        assert(bytes.subrange(0, end) == sse::first_event(bytes));
        assert(part_at(bytes, events(bytes)[0], 0));
    } else {
        let rest = sse::after_first_event(bytes);
        lemma_bytes_hold_their_events(rest, i - 1);
        assert(bytes.subrange(end, end + rest.len()) == rest);
        assert(part_at(bytes, rest, end));
        lemma_holds_in_part(bytes, rest, events(rest)[i - 1]);
    }
}

proof fn lemma_bytes_hold_their_remainder(bytes: Seq<u8>)
    ensures
        holds(bytes, remainder(bytes)),
{
    law_events_partition_the_bytes(bytes);
    let at = joined(events(bytes)).len() as int;
    assert(bytes.subrange(at, at + remainder(bytes).len()) == remainder(bytes));
    assert(part_at(bytes, remainder(bytes), at));
}

proof fn lemma_encode_append(a: Seq<char>, b: Seq<char>)
    ensures
        encode_utf8(a + b) == encode_utf8(a) + encode_utf8(b),
    decreases a.len(),
{
    if a.len() == 0 {
        assert(a + b == b);
    } else {
        assert((a + b).drop_first() == a.drop_first() + b);
        lemma_encode_append(a.drop_first(), b);
    }
}

/// A pattern that stands in a text stands, encoded, in the encoded text.
proof fn lemma_encoded_occurrence(text: Seq<char>, sought: Seq<char>)
    requires
        pattern::occurs(text, sought),
    ensures
        holds(encode_utf8(text), encode_utf8(sought)),
{
    let at = choose|at: int| pattern::occurs_at(text, sought, at);
    let head = text.take(at);
    let rest = text.skip(at + sought.len());
    assert(text == head + sought + rest);
    lemma_encode_append(head + sought, rest);
    lemma_encode_append(head, sought);
    let k = encode_utf8(head).len() as int;
    assert(encode_utf8(text).subrange(k, k + encode_utf8(sought).len()) == encode_utf8(sought));
    assert(part_at(encode_utf8(text), encode_utf8(sought), k));
}

proof fn lemma_part_is_plain(cfg: ReplacementConfig, bytes: Seq<u8>, raw: Seq<u8>)
    requires
        !holds(bytes, encode_utf8(cfg.open_pattern@)),
        holds(bytes, raw),
    ensures
        is_plain(cfg, raw),
{
    if !is_plain(cfg, raw) {
        decode_utf8_encode_utf8(raw);
        lemma_encoded_occurrence(decode_utf8(raw), cfg.open_pattern@);
        lemma_holds_in_part(bytes, raw, encode_utf8(cfg.open_pattern@));
    }
}

/// A stream whose bytes do not hold the open pattern passes byte for byte,
/// however it is cut into chunks and events.
pub proof fn law_stream_without_the_open_pattern_passes(
    cfg: ReplacementConfig,
    chunks: Seq<Seq<u8>>,
)
    requires
        !holds(joined(chunks), encode_utf8(cfg.open_pattern@)),
    ensures
        joined(after_close(cfg, after_chunks(cfg, fresh(), chunks)).out) == joined(chunks),
        !after_close(cfg, after_chunks(cfg, fresh(), chunks)).opened,
{
    let bytes = joined(chunks);
    assert forall|i: int| 0 <= i < events(bytes).len() implies is_plain(
        cfg,
        #[trigger] events(bytes)[i],
    ) by {
        lemma_bytes_hold_their_events(bytes, i);
        lemma_part_is_plain(cfg, bytes, events(bytes)[i]);
    }
    lemma_bytes_hold_their_remainder(bytes);
    lemma_part_is_plain(cfg, bytes, remainder(bytes));
    law_plain_stream_passes(cfg, chunks);
}

} // verus!
