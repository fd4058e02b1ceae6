//! HTTP header fields.

use hyper::header::{HeaderMap, HeaderName, HeaderValue};
use vstd::prelude::*;
use vstd::utf8::*;

use crate::text;

verus! {

/// `hyper::header::HeaderMap`, a multimap of header fields.
#[verifier::external_type_specification]
#[verifier::external_body]
#[verifier::reject_recursive_types(T)]
pub struct ExHeaderMap<T>(HeaderMap<T>);

/// `hyper::header::HeaderName`, the name of a header field.
#[verifier::external_type_specification]
#[verifier::external_body]
pub struct ExHeaderName(HeaderName);

/// `hyper::header::HeaderValue`, the value of a header field.
#[verifier::external_type_specification]
#[verifier::external_body]
pub struct ExHeaderValue(HeaderValue);

/// What a header map holds: the values of each name, in order. Names are in
/// lower case.
pub uninterp spec fn header_fields(map: HeaderMap) -> Map<Seq<char>, Seq<Seq<u8>>>;

/// The characters of a header name, in lower case.
pub uninterp spec fn name_chars(name: HeaderName) -> Seq<char>;

/// The bytes of a header value.
pub uninterp spec fn value_bytes(value: HeaderValue) -> Seq<u8>;

/// The values of `name`, in order.
pub open spec fn values_of(
    fields: Map<Seq<char>, Seq<Seq<u8>>>,
    name: Seq<char>,
) -> Seq<Seq<u8>> {
    if fields.contains_key(name) {
        fields[name]
    } else {
        seq![]
    }
}

/// `fields` with one more value of `name`.
pub open spec fn appended(
    fields: Map<Seq<char>, Seq<Seq<u8>>>,
    name: Seq<char>,
    value: Seq<u8>,
) -> Map<Seq<char>, Seq<Seq<u8>>> {
    fields.insert(name, values_of(fields, name).push(value))
}

/// The fields that come of appending `entries` one after the other.
pub open spec fn collected(entries: Seq<(HeaderName, HeaderValue)>) -> Map<
    Seq<char>,
    Seq<Seq<u8>>,
>
    decreases entries.len(),
{
    if entries.len() == 0 {
        Map::empty()
    } else {
        appended(
            collected(entries.drop_last()),
            name_chars(entries.last().0),
            value_bytes(entries.last().1),
        )
    }
}

/// With fewer names than this a header map always takes another field.
pub const AMPLE_NAMES: usize = 6554;

/// Whether there are so few names that a header map takes another field.
pub open spec fn has_room(fields: Map<Seq<char>, Seq<Seq<u8>>>) -> bool {
    fields.dom().finite() && fields.dom().len() < AMPLE_NAMES
}

/// Whether `name` can be written as a header name as it stands: letters in
/// lower case and hyphens.
pub open spec fn is_plain_name(name: Seq<char>) -> bool {
    &&& 0 < name.len() <= 64
    &&& forall|i: int| 0 <= i < name.len() ==> ('a' <= #[trigger] name[i] <= 'z' || name[i] == '-')
}

/// Whether `b` may stand in a header value: a tab, or anything from the space
/// up but DEL.
pub open spec fn is_value_byte(b: u8) -> bool {
    b == 9 || (b >= 32 && b != 127)
}

/// Whether `b` is a tab or a visible ASCII character.
pub open spec fn is_visible(b: u8) -> bool {
    b == 9 || 32 <= b < 127
}

/// `HeaderMap::new` gives a map without fields.
#[verifier::external_body]
fn empty_map() -> (empty: HeaderMap)
    ensures
        header_fields(empty) == collected(seq![]),
{
    HeaderMap::new()
}

/// `HeaderMap::iter` yields every field once, the values of one name in their
/// order. How the names follow each other is left open.
#[verifier::external_body]
fn entries_of(map: &HeaderMap) -> (entries: Vec<(HeaderName, HeaderValue)>)
    ensures
        collected(entries@) == header_fields(*map),
{
    map.iter().map(|(name, value)| (name.clone(), value.clone())).collect()
}

/// `HeaderMap::try_append` puts a value behind the values that its name has
/// already. It refuses, and changes nothing, only where it would have to make
/// its table larger than 32768 slots, which it never does before a fifth of them
/// is taken. With more names than that, whether it refuses depends on how the
/// names fall into the table, and is left open.
#[verifier::external_body]
fn try_append(map: &mut HeaderMap, name: HeaderName, value: HeaderValue) -> (done: bool)
    ensures
        header_fields(*final(map)) == (if done {
            appended(header_fields(*old(map)), name_chars(name), value_bytes(value))
        } else {
            header_fields(*old(map))
        }),
        has_room(header_fields(*old(map))) ==> done,
{
    map.try_append(name, value).is_ok()
}

/// `HeaderMap::remove` takes every value of a name out of the map.
#[verifier::external_body]
fn remove(map: &mut HeaderMap, name: &HeaderName)
    ensures
        header_fields(*final(map)) == header_fields(*old(map)).remove(name_chars(*name)),
{
    map.remove(name);
}

/// `HeaderMap::get` gives the first value of a name, if it has one.
#[verifier::external_body]
fn get<'a>(map: &'a HeaderMap, name: &HeaderName) -> (value: Option<&'a HeaderValue>)
    ensures
        match value {
            Some(v) => {
                &&& values_of(header_fields(*map), name_chars(*name)).len() > 0
                &&& value_bytes(*v) == values_of(header_fields(*map), name_chars(*name))[0]
            },
            None => values_of(header_fields(*map), name_chars(*name)).len() == 0,
        },
{
    map.get(name)
}

/// `HeaderName::from_static` makes a name of a literal. It panics on characters
/// that a name cannot have, capital letters among them.
#[verifier::external_body]
fn header_name(name: &'static str) -> (r: HeaderName)
    requires
        is_plain_name(name@),
    ensures
        name_chars(r) == name@,
{
    HeaderName::from_static(name)
}

/// `HeaderName::as_str` gives the characters of a name, in lower case.
#[verifier::external_body]
fn name_text(name: &HeaderName) -> (r: &str)
    ensures
        r@ == name_chars(*name),
{
    name.as_str()
}

/// `HeaderValue::from_str` makes a value of a text. It refuses a text with a
/// control character other than the tab.
#[verifier::external_body]
fn header_value(text: &str) -> (r: Option<HeaderValue>)
    ensures
        r is Some <==> is_value_text(text@),
        r matches Some(value) ==> value_bytes(value) == encode_utf8(text@),
{
    HeaderValue::from_str(text).ok()
}

/// `HeaderValue::to_str` gives a value as text where all of it is visible ASCII.
#[verifier::external_body]
fn value_text(value: &HeaderValue) -> (r: Option<&str>)
    ensures
        r is Some <==> is_visible_value(value_bytes(*value)),
        r matches Some(text) ==> encode_utf8(text@) == value_bytes(*value),
{
    value.to_str().ok()
}

/// Whether `text` can be the value of a header field.
pub open spec fn is_value_text(text: Seq<char>) -> bool {
    forall|i: int| 0 <= i < encode_utf8(text).len() ==> is_value_byte(
        #[trigger] encode_utf8(text)[i],
    )
}

/// Whether all of `value` is visible ASCII.
pub open spec fn is_visible_value(value: Seq<u8>) -> bool {
    forall|i: int| 0 <= i < value.len() ==> is_visible(#[trigger] value[i])
}

/// The entries whose name is not `name`, in order.
pub open spec fn entries_except(
    entries: Seq<(HeaderName, HeaderValue)>,
    name: Seq<char>,
) -> Seq<(HeaderName, HeaderValue)>
    decreases entries.len(),
{
    if entries.len() == 0 {
        seq![]
    } else if name_chars(entries.last().0) == name {
        entries_except(entries.drop_last(), name)
    } else {
        entries_except(entries.drop_last(), name).push(entries.last())
    }
}

proof fn lemma_collected_except(entries: Seq<(HeaderName, HeaderValue)>, name: Seq<char>)
    ensures
        collected(entries_except(entries, name)) == collected(entries).remove(name),
        collected(entries).dom().finite(),
    decreases entries.len(),
{
    if entries.len() > 0 {
        let kept = entries_except(entries.drop_last(), name);
        lemma_collected_except(entries.drop_last(), name);
        let last = entries.last();
        if name_chars(last.0) == name {
            assert(collected(entries).remove(name) == collected(entries.drop_last()).remove(name));
        } else {
            assert(kept.push(last).drop_last() == kept);
            assert(collected(kept.push(last)) == collected(entries).remove(name));
        }
    } else {
        assert(collected(entries).remove(name) == collected(entries));
    }
}

proof fn lemma_collected_grows(entries: Seq<(HeaderName, HeaderValue)>, n: int)
    requires
        0 <= n <= entries.len(),
    ensures
        collected(entries.take(n)).dom().subset_of(collected(entries).dom()),
    decreases entries.len(),
{
    if n == entries.len() {
        assert(entries.take(n) == entries);
    } else {
        assert(entries.take(n) == entries.drop_last().take(n));
        lemma_collected_grows(entries.drop_last(), n);
    }
}

/// The fields of `headers` without those of one name.
///
/// `None` comes where a header map cannot hold that many names, which happens
/// only where there are thousands of them.
pub fn copy_except(headers: &HeaderMap, name: &str) -> (copy: Option<HeaderMap>)
    ensures
        copy matches Some(map) ==> header_fields(map) == header_fields(*headers).remove(name@),
        has_room(header_fields(*headers)) ==> copy is Some,
{
    let entries = entries_of(headers);
    let ghost all = entries@;
    let mut copy = empty_map();
    assert(all.take(0) == Seq::<(HeaderName, HeaderValue)>::empty());
    for entry in it: entries
        invariant
            it.seq() == all,
            collected(all) == header_fields(*headers),
            header_fields(copy) == collected(entries_except(all.take(it.index() as int), name@)),
    {
        let ghost i = it.index() as int;
        let ghost seen = all.take(i);
        assert(all.take(i + 1).drop_last() == seen);
        let (field_name, value) = entry;
        if !text::same_text(name_text(&field_name), name) {
            proof {
                let kept = entries_except(seen, name@);
                assert(kept.push(entry).drop_last() == kept);
                lemma_collected_grows(all, i);
                lemma_collected_except(seen, name@);
                lemma_collected_except(all, name@);
                if has_room(header_fields(*headers)) {
                    vstd::set_lib::lemma_len_subset(
                        header_fields(copy).dom(),
                        header_fields(*headers).dom(),
                    );
                }
            }
            if !try_append(&mut copy, field_name, value) {
                return None;
            }
        }
    }
    proof {
        assert(all.take(all.len() as int) == all);
        lemma_collected_except(all, name@);
    }
    Some(copy)
}

/// What can be wrong with the header fields of a request.
#[derive(Debug, PartialEq, Eq, Structural, Clone, Copy)]
pub enum HeaderError {
    /// The authority of the upstream service is no header value.
    InvalidHost,
    /// There are more names than a header map can hold.
    TooManyNames,
}

/// The fields of a request on its way upstream: `Host` names the upstream
/// service, all else is as it came.
pub open spec fn forwarded_fields(
    fields: Map<Seq<char>, Seq<Seq<u8>>>,
    authority: Seq<char>,
) -> Map<Seq<char>, Seq<Seq<u8>>> {
    fields.insert("host"@, seq![encode_utf8(authority)])
}

/// Upstream, `Host` is the upstream service and nothing else, and every other
/// field is the one that came.
pub proof fn law_only_host_is_changed(
    fields: Map<Seq<char>, Seq<Seq<u8>>>,
    authority: Seq<char>,
    name: Seq<char>,
)
    ensures
        values_of(forwarded_fields(fields, authority), name) == (if name == "host"@ {
            seq![encode_utf8(authority)]
        } else {
            values_of(fields, name)
        }),
{
}

/// Copies all header fields of a request except `Host` and sets the `Host` of
/// the upstream service.
pub fn forward_headers(headers: &HeaderMap, authority: &str) -> (r: Result<HeaderMap, HeaderError>)
    ensures
        match r {
            Ok(forwarded) => {
                &&& is_value_text(authority@)
                &&& header_fields(forwarded) == forwarded_fields(
                    header_fields(*headers),
                    authority@,
                )
            },
            Err(HeaderError::InvalidHost) => !is_value_text(authority@),
            Err(HeaderError::TooManyNames) => {
                &&& is_value_text(authority@)
                &&& !has_room(header_fields(*headers))
            },
        },
{
    let value = match header_value(authority) {
        Some(value) => value,
        None => {
            return Err(HeaderError::InvalidHost);
        },
    };
    proof {
        reveal_strlit("host");
    }
    match copy_except(headers, "host") {
        Some(mut copy) => {
            proof {
                let fields = header_fields(*headers);
                if has_room(fields) {
                    vstd::set_lib::lemma_len_subset(fields.remove("host"@).dom(), fields.dom());
                }
            }
            if try_append(&mut copy, header_name("host"), value) {
                assert(values_of(header_fields(*headers).remove("host"@), "host"@).push(
                    encode_utf8(authority@),
                ) == seq![encode_utf8(authority@)]);
                assert(header_fields(copy) == forwarded_fields(
                    header_fields(*headers),
                    authority@,
                ));
                Ok(copy)
            } else {
                Err(HeaderError::TooManyNames)
            }
        },
        None => Err(HeaderError::TooManyNames),
    }
}

/// The fields of a response whose body has changed: all but `Content-Length`.
pub open spec fn resized_fields(fields: Map<Seq<char>, Seq<Seq<u8>>>) -> Map<
    Seq<char>,
    Seq<Seq<u8>>,
> {
    fields.remove("content-length"@)
}

/// Of a response that is rewritten, every field but `Content-Length` is the one
/// that came, and `Content-Length` is gone.
pub proof fn law_only_content_length_is_dropped(
    fields: Map<Seq<char>, Seq<Seq<u8>>>,
    name: Seq<char>,
)
    ensures
        values_of(resized_fields(fields), name) == (if name == "content-length"@ {
            seq![]
        } else {
            values_of(fields, name)
        }),
{
}

/// Takes `Content-Length` out of the header fields.
pub fn drop_content_length(headers: &mut HeaderMap)
    ensures
        header_fields(*final(headers)) == resized_fields(header_fields(*old(headers))),
{
    proof {
        reveal_strlit("content-length");
    }
    remove(headers, &header_name("content-length"));
}

/// Copies all header fields except `Content-Length`.
///
/// `None` comes where a header map cannot hold that many names, which happens
/// only where there are thousands of them.
pub fn copy_without_content_length(headers: &HeaderMap) -> (copy: Option<HeaderMap>)
    ensures
        copy matches Some(c) ==> header_fields(c) == resized_fields(header_fields(*headers)),
        has_room(header_fields(*headers)) ==> copy is Some,
{
    copy_except(headers, "content-length")
}

/// Whether the fields announce an event stream: the first `Content-Type` is
/// visible ASCII and begins with `text/event-stream`.
pub open spec fn announces_event_stream(fields: Map<Seq<char>, Seq<Seq<u8>>>) -> bool {
    let values = values_of(fields, "content-type"@);
    &&& values.len() > 0
    &&& is_visible_value(values[0])
    &&& text::begins_with(decode_utf8(values[0]), "text/event-stream"@)
}

/// Decides [`announces_event_stream`].
pub fn is_event_stream(headers: &HeaderMap) -> (r: bool)
    ensures
        r == announces_event_stream(header_fields(*headers)),
        r ==> {
            &&& header_fields(*headers).contains_key("content-type"@)
            &&& header_fields(*headers)["content-type"@].len() > 0
            &&& encode_utf8("text/event-stream"@).is_prefix_of(
                header_fields(*headers)["content-type"@][0],
            )
        },
{
    proof {
        law_event_streams_are_told_by_the_first_content_type(header_fields(*headers));
        reveal_strlit("content-type");
    }
    match get(headers, &header_name("content-type")) {
        Some(value) => match value_text(value) {
            Some(content_type) => {
                proof {
                    encode_utf8_decode_utf8(content_type@);
                }
                text::starts_with(content_type, "text/event-stream")
            },
            None => false,
        },
        None => false,
    }
}

/// Upstream there is a `Host`, and it is the upstream service; under any other
/// name there is what came, and nothing where nothing came.
pub proof fn law_host_is_the_upstream_service(
    fields: Map<Seq<char>, Seq<Seq<u8>>>,
    authority: Seq<char>,
    name: Seq<char>,
)
    ensures
        forwarded_fields(fields, authority).contains_key("host"@),
        forwarded_fields(fields, authority)["host"@] == seq![encode_utf8(authority)],
        name != "host"@ ==> {
            &&& forwarded_fields(fields, authority).contains_key(name) == fields.contains_key(name)
            &&& fields.contains_key(name) ==> forwarded_fields(fields, authority)[name]
                == fields[name]
        },
{
}

/// Of a response that is rewritten there is no `Content-Length`; under any other
/// name there is what came, and nothing where nothing came.
pub proof fn law_other_fields_are_kept(fields: Map<Seq<char>, Seq<Seq<u8>>>, name: Seq<char>)
    ensures
        !resized_fields(fields).contains_key("content-length"@),
        name != "content-length"@ ==> {
            &&& resized_fields(fields).contains_key(name) == fields.contains_key(name)
            &&& fields.contains_key(name) ==> resized_fields(fields)[name] == fields[name]
        },
{
}

/// A header value holds tabs and anything from the space up but DEL.
pub proof fn law_header_value_bytes(b: u8)
    ensures
        is_value_byte(b) <==> (b == 9 || 32 <= b <= 126 || 128 <= b),
        is_visible(b) <==> (b == 9 || 32 <= b <= 126),
{
}

/// Visible ASCII is the text of the same characters.
proof fn lemma_visible_text(value: Seq<u8>)
    requires
        forall|i: int| 0 <= i < value.len() ==> #[trigger] value[i] < 128,
    ensures
        valid_utf8(value),
        decode_utf8(value).len() == value.len(),
        forall|i: int|
            0 <= i < value.len() ==> #[trigger] decode_utf8(value)[i] == value[i] as char,
{
    let chars = Seq::new(value.len(), |i: int| value[i] as char);
    assert forall|i: int| 0 <= i < chars.len() implies '\0' <= #[trigger] chars[i] <= '\u{7f}' by {
        assert(value[i] < 128);
    }
    assert(is_ascii_chars(chars));
    is_ascii_chars_encode_utf8(chars);
    assert forall|i: int| 0 <= i < value.len() implies encode_utf8(chars)[i] == value[i] by {
        assert(value[i] < 128);
        assert(chars[i] as u8 == encode_utf8(chars)[i]);
    }
    assert(encode_utf8(chars) == value);
    encode_utf8_valid_utf8(chars);
    encode_utf8_decode_utf8(chars);
}

/// An event stream is announced exactly where the first `Content-Type` is
/// visible ASCII and its first bytes are those of `text/event-stream`.
pub proof fn law_event_streams_are_told_by_the_first_content_type(
    fields: Map<Seq<char>, Seq<Seq<u8>>>,
)
    ensures
        announces_event_stream(fields) <==> {
            &&& fields.contains_key("content-type"@)
            &&& fields["content-type"@].len() > 0
            &&& encode_utf8("text/event-stream"@).is_prefix_of(fields["content-type"@][0])
            &&& forall|i: int|
                0 <= i < fields["content-type"@][0].len() ==> ({
                    let b = #[trigger] fields["content-type"@][0][i];
                    b == 9 || 32 <= b <= 126
                })
        },
{
    let sought = "text/event-stream"@;
    reveal_strlit("text/event-stream");
    is_ascii_chars_encode_utf8(sought);
    if fields.contains_key("content-type"@) && fields["content-type"@].len() > 0 {
        let value = fields["content-type"@][0];
        if forall|i: int| 0 <= i < value.len() ==> is_visible(#[trigger] value[i]) {
            assert forall|i: int| 0 <= i < value.len() implies #[trigger] value[i] < 128 by {
                assert(is_visible(value[i]));
            }
            lemma_visible_text(value);
            let text = decode_utf8(value);
            if text::begins_with(text, sought) {
                assert forall|i: int| 0 <= i < sought.len() implies encode_utf8(sought)[i]
                    == value[i] by {
                    assert(text.take(sought.len() as int)[i] == text[i]);
                    assert(text[i] == value[i] as char);
                    assert(sought[i] as u8 == encode_utf8(sought)[i]);
                }
                assert(encode_utf8(sought) == value.subrange(0, sought.len() as int));
            }
            if encode_utf8(sought).is_prefix_of(value) {
                assert forall|i: int| 0 <= i < sought.len() implies sought[i] == text[i] by {
                    assert(encode_utf8(sought)[i] == value.subrange(
                        0,
                        encode_utf8(sought).len() as int,
                    )[i]);
                    assert(text[i] == value[i] as char);
                    assert(sought[i] as u8 == encode_utf8(sought)[i]);
                }
                assert(text.take(sought.len() as int) == sought);
            }
        } else {
            let i = choose|i: int| 0 <= i < value.len() && !is_visible(#[trigger] value[i]);
            assert(!is_visible(fields["content-type"@][0][i]));
        }
    }
}

/// A text can be the value of a header field exactly where its bytes are tabs and
/// anything from the space up but DEL.
pub proof fn law_header_value_texts(text: Seq<char>)
    ensures
        is_value_text(text) <==> forall|i: int|
            0 <= i < encode_utf8(text).len() ==> ({
                let b = #[trigger] encode_utf8(text)[i];
                b == 9 || 32 <= b <= 126 || 128 <= b
            }),
{
    if !is_value_text(text) {
        let i = choose|i: int|
            0 <= i < encode_utf8(text).len() && !is_value_byte(#[trigger] encode_utf8(text)[i]);
        assert(!is_value_byte(encode_utf8(text)[i]));
    }
}

/// There is room wherever there are no more than 6553 names.
pub proof fn law_room(fields: Map<Seq<char>, Seq<Seq<u8>>>)
    requires
        fields.dom().finite(),
    ensures
        has_room(fields) <==> fields.dom().len() <= 6553,
{
}

/// The values of a name are those that stand under it, and none where it is missing.
pub proof fn law_values_of_a_name(fields: Map<Seq<char>, Seq<Seq<u8>>>, name: Seq<char>)
    ensures
        fields.contains_key(name) ==> values_of(fields, name) == fields[name],
        !fields.contains_key(name) ==> values_of(fields, name).len() == 0,
{
}

} // verus!
