//! What the relay does with a request and with the response to it.

use hyper::{HeaderMap, Uri};
use vstd::prelude::*;
use vstd::utf8::*;

use crate::config;
use crate::config::{ProxyConfig, ReplacementConfig};
use crate::headers;
use crate::headers::HeaderError;
use crate::json;
use crate::json::JsonBody;
use crate::sse::SseTransformer;
use crate::text;
use crate::uri;

verus! {

/// A response that the relay makes itself.
#[derive(Debug)]
pub struct ErrorResponse {
    /// The status code.
    pub status: u16,
    /// The body.
    pub message: String,
}

/// A response with the given status and body.
pub fn error_response(status: u16, msg: String) -> (response: ErrorResponse)
    ensures
        response.status == status,
        response.message@ == msg@,
{
    ErrorResponse { status, message: msg }
}

/// A request on its way upstream.
pub struct UpstreamRequest {
    /// Whether the response needs the handling of chat completions.
    pub is_chat: bool,
    /// The URI at the upstream service.
    pub uri: Uri,
    /// The header fields.
    pub headers: HeaderMap,
}

/// Why a request cannot be forwarded.
#[derive(Debug, PartialEq, Eq, Structural, Clone, Copy)]
pub enum RequestError {
    /// No URI can be made for the upstream service.
    InvalidUri,
    /// The authority of the upstream service is no header value.
    InvalidHost,
    /// There are more header names than a header map can hold.
    TooManyNames,
}

/// Whether `path` is the path of chat completions.
pub open spec fn is_chat_path(path: Seq<char>) -> bool {
    path == "/v1/chat/completions"@
}

/// Prepares a request for the upstream service: path and query, and all header
/// fields except `Host`, are kept.
pub fn prepare_request(cfg: &ProxyConfig, orig_uri: &Uri, orig_headers: &HeaderMap) -> (r: Result<
    UpstreamRequest,
    RequestError,
>)
    ensures
        ({
            let fields = headers::header_fields(*orig_headers);
            let parsed = uri::parsed_uri(cfg.upstream_text(uri::uri_target(*orig_uri)));
            match r {
                Ok(request) => {
                    &&& request.is_chat == is_chat_path(uri::uri_path(*orig_uri))
                    &&& request.is_chat <==> uri::uri_path(*orig_uri) == "/v1/chat/completions"@
                    &&& parsed == Some(request.uri)
                    // It points to the upstream service, and path and query are preserved.
                    &&& cfg.has_plain_host() && config::is_absolute_target(
                        uri::uri_target(*orig_uri),
                    ) ==> {
                        &&& uri::uri_authority(request.uri) == Some(cfg.authority())
                        &&& uri::uri_target(request.uri) == Some(
                            config::text_setting(uri::uri_target(*orig_uri), "/"@),
                        )
                    }
                    &&& !cfg.connect_cfg.upstream_host@.contains('/')
                        && !cfg.connect_cfg.upstream_host@.contains('?')
                        && !cfg.connect_cfg.upstream_host@.contains('#') ==> match uri::uri_target(
                        *orig_uri,
                    ) {
                        Some(t) => t.len() > 0 && (t[0] == '/' || t[0] == '?')
                            ==> uri::uri_target(request.uri) == Some(t),
                        None => uri::uri_target(request.uri) == Some("/"@),
                    }
                    &&& headers::is_value_text(cfg.authority())
                    &&& headers::header_fields(request.headers) == headers::forwarded_fields(
                        fields,
                        cfg.authority(),
                    )
                },
                Err(RequestError::InvalidUri) => parsed is None,
                Err(RequestError::InvalidHost) => {
                    &&& parsed is Some
                    &&& !headers::is_value_text(cfg.authority())
                },
                Err(RequestError::TooManyNames) => {
                    &&& parsed is Some
                    &&& headers::is_value_text(cfg.authority())
                    &&& !headers::has_room(fields)
                },
            }
        }),
{
    let is_chat = text::same_text(uri::path_of(orig_uri), "/v1/chat/completions");
    if !cfg.has_upstream_uri(orig_uri) {
        return Err(RequestError::InvalidUri);
    }
    let uri = cfg.build_upstream_uri(orig_uri);
    let authority = cfg.upstream_authority();
    match headers::forward_headers(orig_headers, authority.as_str()) {
        Ok(forwarded) => Ok(UpstreamRequest { is_chat, uri, headers: forwarded }),
        Err(HeaderError::InvalidHost) => Err(RequestError::InvalidHost),
        Err(HeaderError::TooManyNames) => Err(RequestError::TooManyNames),
    }
}

/// How the response to a chat completion is rewritten.
#[derive(Debug, PartialEq, Eq, Structural, Clone, Copy)]
pub enum ChatHandling {
    /// Event by event, as it comes.
    Streaming,
    /// As a whole.
    FullJson,
}

/// Chooses how the response to a chat completion is rewritten.
pub fn handle_chat_completions(response_headers: &HeaderMap) -> (handling: ChatHandling)
    ensures
        handling == (if headers::announces_event_stream(headers::header_fields(*response_headers)) {
            ChatHandling::Streaming
        } else {
            ChatHandling::FullJson
        }),
        handling == ChatHandling::Streaming ==> {
            let fields = headers::header_fields(*response_headers);
            &&& fields.contains_key("content-type"@)
            &&& fields["content-type"@].len() > 0
            &&& encode_utf8("text/event-stream"@).is_prefix_of(fields["content-type"@][0])
        },
{
    if headers::is_event_stream(response_headers) {
        ChatHandling::Streaming
    } else {
        ChatHandling::FullJson
    }
}

/// What is sent back for a forwarded request.
pub enum Forward {
    /// The response of the upstream service, as it is.
    Unchanged,
    /// The response of the upstream service, rewritten.
    Rewritten(ChatHandling),
    /// An error.
    Error(ErrorResponse),
}

/// Decides what is sent back, from the header fields of the response or, where
/// the upstream service could not be reached, from what went wrong.
pub fn forward_response(is_chat: bool, outcome: Result<&HeaderMap, String>) -> (forward: Forward)
    ensures
        match outcome {
            Ok(response_headers) => if is_chat {
                forward == Forward::Rewritten(
                    if headers::announces_event_stream(headers::header_fields(*response_headers)) {
                        ChatHandling::Streaming
                    } else {
                        ChatHandling::FullJson
                    },
                )
            } else {
                forward == Forward::Unchanged
            },
            Err(e) => {
                &&& forward matches Forward::Error(response)
                &&& response.status == 502
                &&& response.message@ == "upstream error: "@ + e@
            },
        },
{
    match outcome {
        Ok(response_headers) => if is_chat {
            Forward::Rewritten(handle_chat_completions(response_headers))
        } else {
            Forward::Unchanged
        },
        Err(e) => {
            let message = "upstream error: ".to_owned().concat(e.as_str());
            Forward::Error(error_response(502, message))
        },
    }
}

/// The response to a chat completion that has come as a whole.
pub enum JsonReply {
    /// The response of the upstream service with these header fields and this body.
    Body(HeaderMap, Vec<u8>),
    /// An error: the body could not be read.
    Unreadable(ErrorResponse),
    /// An error: the rewritten body could not be written out, and why.
    Unprintable(ErrorResponse, serde_json::Error),
}

/// The response for the body `raw`, from what has become of it.
pub fn json_reply(response_headers: HeaderMap, raw: Vec<u8>, body: JsonBody) -> (reply: JsonReply)
    ensures
        match body {
            JsonBody::NotJson => {
                &&& reply matches JsonReply::Body(reply_headers, new_body)
                &&& headers::header_fields(reply_headers) == headers::resized_fields(
                    headers::header_fields(response_headers),
                )
                &&& new_body@ == raw@
            },
            JsonBody::Rewritten(bytes) => {
                &&& reply matches JsonReply::Body(reply_headers, new_body)
                &&& headers::header_fields(reply_headers) == headers::resized_fields(
                    headers::header_fields(response_headers),
                )
                &&& new_body@ == bytes@
            },
            JsonBody::Unprintable(e) => {
                &&& reply matches JsonReply::Unprintable(response, cause)
                &&& response.status == 500
                &&& response.message@ == "internal rewrite error"@
                &&& cause == e
            },
        },
{
    let new_body = match body {
        JsonBody::NotJson => raw,
        JsonBody::Rewritten(bytes) => bytes,
        JsonBody::Unprintable(e) => {
            let response = error_response(500, "internal rewrite error".to_owned());
            return JsonReply::Unprintable(response, e);
        },
    };
    let mut reply_headers = response_headers;
    headers::drop_content_length(&mut reply_headers);
    JsonReply::Body(reply_headers, new_body)
}

/// Rewrites a chat completion that has come as a whole. `body` is the body, or
/// what went wrong when it was read.
///
/// A body that is not JSON is handed on as it is. Every body that has been read
/// is answered with a body.
pub fn rewrite_full_json(
    response_headers: HeaderMap,
    body: Result<Vec<u8>, String>,
    replace_cfg: ReplacementConfig,
) -> (reply: JsonReply)
    ensures
        match body {
            Err(e) => {
                &&& reply matches JsonReply::Unreadable(response)
                &&& response.status == 502
                &&& response.message@ == "failed to read upstream body: "@ + e@
            },
            Ok(raw) => {
                &&& reply matches JsonReply::Body(reply_headers, new_body)
                &&& headers::header_fields(reply_headers) == headers::resized_fields(
                    headers::header_fields(response_headers),
                )
                &&& new_body@ == rewritten_body(raw@, replace_cfg)
                &&& match json::parsed_json(raw@) {
                    Some(tree) => new_body@ == json::printed_json(
                        json::tree_rewritten(replace_cfg, false, tree),
                    ),
                    None => new_body@ == raw@,
                }
                // Whoever reads it finds the completion with its contents rewritten.
                &&& json::parsed_json(raw@) matches Some(tree) ==> (json::reads_back(
                    tree,
                    json::MAX_NESTING as nat,
                ) ==> json::parsed_json(new_body@) == Some(
                    json::tree_rewritten(replace_cfg, false, tree),
                ))
            },
        },
{
    let raw = match body {
        Ok(raw) => raw,
        Err(e) => {
            let message = "failed to read upstream body: ".to_owned().concat(e.as_str());
            return JsonReply::Unreadable(error_response(502, message));
        },
    };
    let body = json::rewrite_body(raw.as_slice(), replace_cfg);
    json_reply(response_headers, raw, body)
}

/// The body that is sent for the body `raw`: the same where it is not JSON,
/// else the completion with its contents rewritten.
pub open spec fn rewritten_body(raw: Seq<u8>, cfg: ReplacementConfig) -> Seq<u8> {
    match json::parsed_json(raw) {
        Some(tree) => json::printed_json(json::tree_rewritten(cfg, false, tree)),
        None => raw,
    }
}

/// The start of the response to a chat completion that comes as a stream.
pub struct StreamReply {
    /// The header fields.
    pub headers: HeaderMap,
    /// What rewrites the body.
    pub transformer: SseTransformer,
}

/// Starts the response to a chat completion that comes as a stream.
///
/// `None` comes where a header map cannot hold that many names, which happens
/// only where there are thousands of them.
pub fn rewrite_streaming(response_headers: &HeaderMap, replace_cfg: ReplacementConfig) -> (reply:
    Option<StreamReply>)
    ensures
        reply matches Some(start) ==> {
            &&& headers::header_fields(start.headers) == headers::resized_fields(
                headers::header_fields(*response_headers),
            )
            &&& start.transformer.waiting() == Seq::<u8>::empty()
            &&& start.transformer.replacer.cfg == replace_cfg
            &&& !start.transformer.replacer.opened
        },
        headers::has_room(headers::header_fields(*response_headers)) ==> reply is Some,
{
    match headers::copy_without_content_length(response_headers) {
        Some(copy) => Some(
            StreamReply { headers: copy, transformer: SseTransformer::new(replace_cfg) },
        ),
        None => None,
    }
}

/// Chat completions are asked for under one path and no other.
pub proof fn law_chat_path(path: Seq<char>)
    ensures
        is_chat_path(path) <==> path == "/v1/chat/completions"@,
{
}

} // verus!
