//! The rewrite of a server-sent event stream.
//!
//! Bytes are buffered until an empty line ends an event; each event is then
//! rewritten and handed on.

use bytes::BytesMut;
use vstd::prelude::*;
use vstd::utf8::*;

use crate::buffer;
use crate::config::ReplacementConfig;
use crate::replacer;
use crate::replacer::PatternReplacer;
use crate::text;

verus! {

/// Whether the two newlines that end an event stand at `at`.
pub open spec fn boundary_at(buf: Seq<u8>, at: int) -> bool {
    0 <= at && at + 1 < buf.len() && buf[at] == 10 && buf[at + 1] == 10
}

/// Whether `at` is the leftmost event boundary.
pub open spec fn is_first_boundary(buf: Seq<u8>, at: int) -> bool {
    boundary_at(buf, at) && forall|j: int| j < at ==> !boundary_at(buf, j)
}

/// Whether a complete event is buffered.
pub open spec fn has_event(buf: Seq<u8>) -> bool {
    exists|at: int| boundary_at(buf, at)
}

/// The leftmost event boundary.
pub open spec fn first_boundary(buf: Seq<u8>) -> int
    recommends
        has_event(buf),
{
    choose|at: int| is_first_boundary(buf, at)
}

/// The first complete event, with the two newlines that end it.
pub open spec fn first_event(buf: Seq<u8>) -> Seq<u8>
    recommends
        has_event(buf),
{
    buf.take(first_boundary(buf) + 2)
}

/// What follows the first complete event.
pub open spec fn after_first_event(buf: Seq<u8>) -> Seq<u8>
    recommends
        has_event(buf),
{
    buf.skip(first_boundary(buf) + 2)
}

/// Whether `text` is the sentinel that ends a completion.
pub open spec fn is_done(text: Seq<char>) -> bool {
    text::begins_with(text::trimmed_start(text), "data: [DONE]"@)
}

/// Whether an event is handed on as it is: it is not UTF-8, or it is the sentinel.
pub open spec fn is_left_alone(raw: Seq<u8>) -> bool {
    !valid_utf8(raw) || is_done(decode_utf8(raw))
}

/// The event that is handed on for `raw`.
pub open spec fn event_out(cfg: ReplacementConfig, opened: bool, raw: Seq<u8>) -> Seq<u8> {
    if is_left_alone(raw) {
        raw
    } else {
        encode_utf8(replacer::rewritten(cfg, opened, decode_utf8(raw)))
    }
}

/// Whether a block is open after `raw`.
pub open spec fn event_opened(cfg: ReplacementConfig, opened: bool, raw: Seq<u8>) -> bool {
    if is_left_alone(raw) {
        opened
    } else {
        replacer::opened_after(cfg, opened, decode_utf8(raw))
    }
}

/// A buffer that holds a boundary has a leftmost one.
pub proof fn lemma_first_boundary(buf: Seq<u8>)
    requires
        has_event(buf),
    ensures
        is_first_boundary(buf, first_boundary(buf)),
{
    let at = choose|at: int| boundary_at(buf, at);
    lemma_first_boundary_up_to(buf, at);
}

proof fn lemma_first_boundary_up_to(buf: Seq<u8>, at: int)
    requires
        boundary_at(buf, at),
    ensures
        exists|first: int| is_first_boundary(buf, first),
    decreases at,
{
    if exists|j: int| j < at && boundary_at(buf, j) {
        let j = choose|j: int| j < at && boundary_at(buf, j);
        lemma_first_boundary_up_to(buf, j);
    } else {
        assert(is_first_boundary(buf, at));
    }
}

/// The leftmost boundary is unique.
pub proof fn lemma_first_boundary_unique(buf: Seq<u8>, at: int)
    requires
        is_first_boundary(buf, at),
    ensures
        has_event(buf),
        first_boundary(buf) == at,
{
    assert(is_first_boundary(buf, first_boundary(buf)));
}

/// What the upstream has to say when asked for more.
pub enum Upstream<'a, E> {
    /// More bytes.
    Chunk(&'a [u8]),
    /// The upstream broke off.
    Failed(E),
    /// There is no more.
    Closed,
}

/// What the stream does next.
pub enum Step<E> {
    /// Ask the upstream for more.
    Pull,
    /// Hand on these bytes.
    Emit(Vec<u8>),
    /// Report the failure of the upstream.
    Fail(E),
    /// End the stream.
    End,
}

/// Buffers a stream until an event is complete, then rewrites the event.
#[derive(Debug)]
pub struct SseTransformer {
    pub buf: BytesMut,
    pub replacer: PatternReplacer,
}

impl SseTransformer {
    /// The bytes that wait for the end of their event.
    pub open spec fn waiting(self) -> Seq<u8> {
        buffer::buffered(self.buf)
    }

    /// A transformer with nothing buffered and no open block.
    pub fn new(replace_cfg: ReplacementConfig) -> (transformer: Self)
        ensures
            transformer.waiting() == Seq::<u8>::empty(),
            transformer.replacer.cfg == replace_cfg,
            !transformer.replacer.opened,
    {
        SseTransformer { buf: BytesMut::new(), replacer: PatternReplacer::new(replace_cfg) }
    }

    /// The number of bytes that wait for the end of their event.
    pub fn waiting_len(&self) -> (len: usize)
        ensures
            len == self.waiting().len(),
    {
        self.buf.len()
    }

    /// Locates the first `\n\n` delimiter. Returns the index of the *first* newline.
    pub fn find_event_boundary(buf: &BytesMut) -> (found: Option<usize>)
        ensures
            match found {
                Some(at) => {
                    &&& has_event(buffer::buffered(*buf))
                    &&& at == first_boundary(buffer::buffered(*buf))
                    &&& at + 2 <= buffer::buffered(*buf).len() <= usize::MAX
                },
                None => !has_event(buffer::buffered(*buf)),
            },
    {
        let bytes = buffer::bytes_of(buf);
        let mut i: usize = 0;
        while i < bytes.len()
            invariant
                i <= bytes@.len(),
                bytes@ == buffer::buffered(*buf),
                forall|j: int| j < i ==> !boundary_at(bytes@, j),
            decreases bytes.len() - i,
        {
            if bytes[i] == 10 && i + 1 < bytes.len() && bytes[i + 1] == 10 {
                proof {
                    lemma_first_boundary_unique(bytes@, i as int);
                }
                return Some(i);
            }
            i = i + 1;
        }
        None
    }

    /// Rewrites a single event (with its trailing newlines).
    ///
    /// What is not UTF-8 is handed on unchanged, and so is the `[DONE]` sentinel.
    pub fn rewrite_event(&mut self, raw_event: &[u8]) -> (out: Vec<u8>)
        ensures
            out@ == event_out(old(self).replacer.cfg, old(self).replacer.opened, raw_event@),
            final(self).replacer.opened == event_opened(
                old(self).replacer.cfg,
                old(self).replacer.opened,
                raw_event@,
            ),
            final(self).replacer.cfg == old(self).replacer.cfg,
            final(self).buf == old(self).buf,
    {
        match buffer::text_of(raw_event) {
            Some(s) => {
                proof {
                    encode_utf8_decode_utf8(s@);
                }
                let chars = text::chars_of(s);
                let from = text::skip_white_space(&chars);
                if text::range_begins_with(&chars, from, &text::chars_of("data: [DONE]")) {
                    return vstd::slice::slice_to_vec(raw_event);
                }
                let rewritten = self.replacer.rewrite(s);
                rewritten.as_str().as_bytes_vec()
            },
            None => vstd::slice::slice_to_vec(raw_event),
        }
    }

    /// Advances the stream: `pulled` is what the upstream said in reply to the
    /// last [`Step::Pull`], and `None` where nothing was asked. The upstream is
    /// asked only where no complete event waits, so that neither its end nor its
    /// failure overtakes an event.
    pub fn poll_next<E>(&mut self, pulled: Option<Upstream<'_, E>>) -> (step: Step<E>)
        requires
            pulled matches Some(Upstream::Chunk(chunk)) ==> old(self).waiting().len()
                + chunk@.len() <= isize::MAX,
            (pulled matches Some(Upstream::Failed(_)) || pulled matches Some(Upstream::Closed))
                ==> !has_event(old(self).waiting()),
        ensures
            final(self).replacer.cfg == old(self).replacer.cfg,
            ({
                let cfg = old(self).replacer.cfg;
                let opened = old(self).replacer.opened;
                match pulled {
                    Some(Upstream::Failed(e)) => {
                        &&& step == Step::Fail(e)
                        &&& final(self).waiting() == old(self).waiting()
                        &&& final(self).replacer.opened == opened
                    },
                    Some(Upstream::Closed) => if old(self).waiting().len() == 0 {
                        &&& step == Step::<E>::End
                        &&& final(self).waiting() == old(self).waiting()
                        &&& final(self).replacer.opened == opened
                    } else {
                        &&& step matches Step::Emit(out)
                        &&& out@ == event_out(cfg, opened, old(self).waiting())
                        &&& final(self).waiting() == Seq::<u8>::empty()
                        &&& final(self).replacer.opened == event_opened(
                            cfg,
                            opened,
                            old(self).waiting(),
                        )
                    },
                    _ => {
                        let fed = match pulled {
                            Some(Upstream::Chunk(chunk)) => old(self).waiting() + chunk@,
                            _ => old(self).waiting(),
                        };
                        if has_event(fed) {
                            &&& step matches Step::Emit(out)
                            &&& out@ == event_out(cfg, opened, first_event(fed))
                            &&& final(self).waiting() == after_first_event(fed)
                            &&& final(self).replacer.opened == event_opened(
                                cfg,
                                opened,
                                first_event(fed),
                            )
                        } else {
                            &&& step == Step::<E>::Pull
                            &&& final(self).waiting() == fed
                            &&& final(self).replacer.opened == opened
                        }
                    },
                }
            }),
    {
        match pulled {
            Some(Upstream::Chunk(chunk)) => {
                self.buf.extend_from_slice(chunk);
            },
            Some(Upstream::Failed(e)) => {
                return Step::Fail(e);
            },
            Some(Upstream::Closed) => {
                let len = self.buf.len();
                if len > 0 {
                    assert(self.waiting().take(len as int) == self.waiting());
                    let raw_event = self.buf.split_to(len);
                    let out = self.rewrite_event(buffer::bytes_of(&raw_event));
                    return Step::Emit(out);
                }
                return Step::End;
            },
            None => {},
        }
        match Self::find_event_boundary(&self.buf) {
            Some(boundary) => {
                let raw_event = self.buf.split_to(boundary + 2);
                let out = self.rewrite_event(buffer::bytes_of(&raw_event));
                Step::Emit(out)
            },
            None => Step::Pull,
        }
    }
}

/// The first event ends with the first two newlines that stand side by side, and
/// what follows is what comes after them.
pub proof fn law_first_event_ends_with_the_first_empty_line(head: Seq<u8>, rest: Seq<u8>)
    requires
        forall|i: int|
            0 <= i < head.len() ==> !(#[trigger] head[i] == 10 && (head + seq![10u8, 10u8])[i + 1]
                == 10),
    ensures
        has_event(head + seq![10u8, 10u8] + rest),
        first_boundary(head + seq![10u8, 10u8] + rest) == head.len(),
        first_event(head + seq![10u8, 10u8] + rest) == head + seq![10u8, 10u8],
        after_first_event(head + seq![10u8, 10u8] + rest) == rest,
{
    let ended = head + seq![10u8, 10u8];
    let buf = ended + rest;
    let at = head.len() as int;
    assert(buf[at] == 10 && buf[at + 1] == 10);
    assert forall|j: int| j < at implies !boundary_at(buf, j) by {
        if 0 <= j {
            assert(buf[j] == head[j]);
            assert(buf[j + 1] == ended[j + 1]);
        }
    }
    lemma_first_boundary_unique(buf, at);
    assert(buf.take(at + 2) == ended);
    assert(buf.skip(at + 2) == rest);
}

/// Without two newlines side by side there is no event.
pub proof fn law_no_event_without_an_empty_line(buf: Seq<u8>)
    requires
        forall|i: int| 0 <= i < buf.len() - 1 ==> !(#[trigger] buf[i] == 10 && buf[i + 1] == 10),
    ensures
        !has_event(buf),
{
    assert forall|at: int| !boundary_at(buf, at) by {
        if boundary_at(buf, at) {
            assert(buf[at] == 10);
        }
    }
}

/// An event is rewritten, whatever it holds, unless `data: [DONE]` comes behind
/// the white space at its start.
pub proof fn law_every_other_event_is_rewritten(
    cfg: ReplacementConfig,
    opened: bool,
    raw: Seq<u8>,
    space: Seq<char>,
    rest: Seq<char>,
)
    requires
        valid_utf8(raw),
        decode_utf8(raw) == space + rest,
        forall|i: int| 0 <= i < space.len() ==> text::is_white_space(#[trigger] space[i]),
        rest.len() == 0 || !text::is_white_space(rest[0]),
        !"data: [DONE]"@.is_prefix_of(rest),
    ensures
        event_out(cfg, opened, raw) == encode_utf8(
            replacer::rewritten(cfg, opened, decode_utf8(raw)),
        ),
        event_opened(cfg, opened, raw) == replacer::opened_after(cfg, opened, decode_utf8(raw)),
{
    text::law_leading_white_space_is_trimmed(space, rest);
    text::law_prefixes(rest, "data: [DONE]"@);
}

/// An event whose text starts with a character that is no white space, and not
/// with `data: [DONE]`, is rewritten: every event with a JSON object is.
pub proof fn law_data_events_are_rewritten(cfg: ReplacementConfig, opened: bool, raw: Seq<u8>)
    requires
        valid_utf8(raw),
        "data: {"@.is_prefix_of(decode_utf8(raw)),
    ensures
        event_out(cfg, opened, raw) == encode_utf8(
            replacer::rewritten(cfg, opened, decode_utf8(raw)),
        ),
        event_opened(cfg, opened, raw) == replacer::opened_after(cfg, opened, decode_utf8(raw)),
{
    let chars = decode_utf8(raw);
    reveal_strlit("data: {");
    reveal_strlit("data: [DONE]");
    assert("data: {"@[0] == chars.subrange(0, 7)[0]);
    assert("data: {"@[6] == chars.subrange(0, 7)[6]);
    if "data: [DONE]"@.is_prefix_of(chars) {
        assert("data: [DONE]"@[6] == chars.subrange(0, 12)[6]);
    }
    assert(Seq::<char>::empty() + chars == chars);
    law_every_other_event_is_rewritten(cfg, opened, raw, Seq::<char>::empty(), chars);
}

/// The sentinel is kept, with any white space before it and anything behind it,
/// and so is what is not UTF-8.
pub proof fn law_sentinel_and_other_bytes_are_kept(
    cfg: ReplacementConfig,
    opened: bool,
    raw: Seq<u8>,
    space: Seq<char>,
    rest: Seq<char>,
)
    requires
        valid_utf8(raw) ==> decode_utf8(raw) == space + "data: [DONE]"@ + rest,
        forall|i: int| 0 <= i < space.len() ==> text::is_white_space(#[trigger] space[i]),
    ensures
        event_out(cfg, opened, raw) == raw,
        event_opened(cfg, opened, raw) == opened,
{
    let shown = "data: [DONE]"@ + rest;
    reveal_strlit("data: [DONE]");
    assert(space + "data: [DONE]"@ + rest == space + shown);
    assert("data: [DONE]"@ == shown.subrange(0, 12));
    text::law_leading_white_space_is_trimmed(space, shown);
    text::law_prefixes(shown, "data: [DONE]"@);
}

/// All that is buffered waits.
pub proof fn law_all_that_is_buffered_waits(transformer: SseTransformer)
    ensures
        transformer.waiting() == buffer::buffered(transformer.buf),
{
}

} // verus!
