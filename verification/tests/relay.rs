use hyper::header::{HeaderName, HeaderValue};
use hyper::{HeaderMap, Uri};
use openai_oss_relay::headers::{
    copy_except, copy_without_content_length, drop_content_length, forward_headers,
    is_event_stream, HeaderError,
};
use openai_oss_relay::json::JsonBody;
use openai_oss_relay::relay::{
    error_response, forward_response, handle_chat_completions, json_reply, prepare_request,
    rewrite_full_json, rewrite_streaming, ChatHandling, Forward, JsonReply, RequestError,
};
use openai_oss_relay::{ConnectionConfig, ProxyConfig, ReplacementConfig};

const OPEN: &str = "<|channel|>analysis<|message|>";
const CLOSE: &str = "<|end|><|start|>assistant<|channel|>final<|message|>";

fn headers(fields: &[(&'static str, &str)]) -> HeaderMap {
    let mut map = HeaderMap::new();
    for (name, value) in fields {
        map.append(HeaderName::from_static(name), HeaderValue::from_str(value).unwrap());
    }
    map
}

fn values(map: &HeaderMap, name: &str) -> Vec<String> {
    map.get_all(name).iter().map(|v| v.to_str().unwrap().to_string()).collect()
}

fn uri(text: &str) -> Uri {
    text.parse().unwrap()
}

fn many_headers(n: usize) -> HeaderMap {
    let mut map = HeaderMap::new();
    for i in 0..n {
        let name = HeaderName::from_bytes(format!("x-{i}").as_bytes()).unwrap();
        map.append(name, HeaderValue::from_static("v"));
    }
    map
}

#[test]
fn headers_are_copied_except_one_name() {
    let map = headers(&[("host", "a"), ("accept", "1"), ("host", "b"), ("accept", "2"), ("x", "y")]);
    let copy = copy_except(&map, "host").unwrap();
    assert!(!copy.contains_key("host"));
    assert_eq!(values(&copy, "accept"), vec!["1", "2"]);
    assert_eq!(values(&copy, "x"), vec!["y"]);
    assert_eq!(copy.len(), 3);
    assert_eq!(copy_except(&map, "none").unwrap(), map);
    assert_eq!(copy_except(&HeaderMap::new(), "host").unwrap().len(), 0);
}

#[test]
fn host_is_replaced_and_all_else_is_kept() {
    let map = headers(&[("host", "proxy"), ("cookie", "a"), ("cookie", "b"), ("host", "twice")]);
    let forwarded = forward_headers(&map, "127.0.0.1:1234").unwrap();
    assert_eq!(values(&forwarded, "host"), vec!["127.0.0.1:1234"]);
    assert_eq!(values(&forwarded, "cookie"), vec!["a", "b"]);
    assert_eq!(forwarded.len(), 3);
}

#[test]
fn opaque_header_values_are_kept() {
    let mut map = HeaderMap::new();
    map.append("x-raw", HeaderValue::from_bytes(b"\xff\xfe").unwrap());
    let forwarded = forward_headers(&map, "h:1").unwrap();
    assert_eq!(forwarded.get("x-raw").unwrap().as_bytes(), b"\xff\xfe");
}

#[test]
fn a_host_that_is_no_header_value_is_refused() {
    assert_eq!(forward_headers(&HeaderMap::new(), "a\nb:1"), Err(HeaderError::InvalidHost));
    assert_eq!(forward_headers(&HeaderMap::new(), "a\u{7f}:1"), Err(HeaderError::InvalidHost));
    let forwarded = forward_headers(&HeaderMap::new(), "é:1").unwrap();
    assert_eq!(forwarded.get("host").unwrap().as_bytes(), "é:1".as_bytes());
}

#[test]
fn too_many_names_are_refused() {
    // As many names as a header map can hold, with no room for another.
    let full = many_headers(24576);
    assert_eq!(forward_headers(&full, "h:1"), Err(HeaderError::TooManyNames));
    assert_eq!(copy_except(&many_headers(6553), "host").unwrap().len(), 6553);
    assert_eq!(forward_headers(&many_headers(6553), "h:1").unwrap().len(), 6554);
}

#[test]
fn content_length_is_dropped() {
    let mut map = headers(&[("content-length", "12"), ("content-type", "application/json")]);
    let copy = copy_without_content_length(&map).unwrap();
    drop_content_length(&mut map);
    assert_eq!(copy, map);
    assert_eq!(map.len(), 1);
    assert_eq!(values(&map, "content-type"), vec!["application/json"]);
    drop_content_length(&mut map);
    assert_eq!(map.len(), 1);
}

#[test]
fn event_streams_are_recognised() {
    assert!(is_event_stream(&headers(&[("content-type", "text/event-stream")])));
    assert!(is_event_stream(&headers(&[("content-type", "text/event-stream; charset=utf-8")])));
    assert!(!is_event_stream(&headers(&[("content-type", "application/json")])));
    assert!(!is_event_stream(&headers(&[("content-type", " text/event-stream")])));
    assert!(!is_event_stream(&HeaderMap::new()));
    // The first value counts.
    assert!(!is_event_stream(&headers(&[("content-type", "a/b"), ("content-type", "text/event-stream")])));
    // A value that is not visible ASCII is not read.
    let mut map = HeaderMap::new();
    map.append("content-type", HeaderValue::from_bytes(b"text/event-stream\xff").unwrap());
    assert!(!is_event_stream(&map));
}

#[test]
fn a_request_is_prepared() {
    let cfg = ProxyConfig::from_env(&Vec::new());
    let map = headers(&[("host", "proxy:8080"), ("authorization", "Bearer x")]);
    let chat = prepare_request(&cfg, &uri("/v1/chat/completions?a=b"), &map).unwrap();
    assert!(chat.is_chat);
    assert_eq!(chat.uri.to_string(), "http://127.0.0.1:1234/v1/chat/completions?a=b");
    assert_eq!(values(&chat.headers, "host"), vec!["127.0.0.1:1234"]);
    assert_eq!(values(&chat.headers, "authorization"), vec!["Bearer x"]);

    for path in ["/v1/models", "/v1/chat/completions/", "/V1/chat/completions", "/"] {
        assert!(!prepare_request(&cfg, &uri(path), &map).unwrap().is_chat);
    }
}

#[test]
fn a_request_that_cannot_be_forwarded() {
    let with_host = |host: &str| ProxyConfig {
        connect_cfg: ConnectionConfig {
            upstream_host: host.to_string(),
            ..ConnectionConfig::default()
        },
        replace_cfg: ReplacementConfig::default(),
    };
    let none = HeaderMap::new();
    assert_eq!(
        prepare_request(&with_host("a b"), &uri("/"), &none).err(),
        Some(RequestError::InvalidUri)
    );
    // The line break stands behind the fragment sign, where a URI ignores it.
    assert_eq!(
        prepare_request(&with_host("a#\n"), &uri("/"), &none).err(),
        Some(RequestError::InvalidHost)
    );
    assert_eq!(
        prepare_request(&with_host("a"), &uri("/"), &many_headers(24576)).err(),
        Some(RequestError::TooManyNames)
    );
}

#[test]
fn other_endpoints_pass_unchanged() {
    let sse = headers(&[("content-type", "text/event-stream")]);
    assert!(matches!(forward_response(false, Ok(&sse)), Forward::Unchanged));
    assert!(matches!(forward_response(false, Ok(&HeaderMap::new())), Forward::Unchanged));
}

#[test]
fn chat_is_rewritten_by_content_type() {
    let sse = headers(&[("content-type", "text/event-stream")]);
    let json = headers(&[("content-type", "application/json")]);
    assert_eq!(handle_chat_completions(&sse), ChatHandling::Streaming);
    assert_eq!(handle_chat_completions(&json), ChatHandling::FullJson);
    assert!(matches!(
        forward_response(true, Ok(&sse)),
        Forward::Rewritten(ChatHandling::Streaming)
    ));
    assert!(matches!(
        forward_response(true, Ok(&json)),
        Forward::Rewritten(ChatHandling::FullJson)
    ));
}

#[test]
fn an_unreachable_upstream_is_a_bad_gateway() {
    for is_chat in [false, true] {
        match forward_response(is_chat, Err("connection refused".to_string())) {
            Forward::Error(response) => {
                assert_eq!(response.status, 502);
                assert_eq!(response.message, "upstream error: connection refused");
            }
            _ => panic!(),
        }
    }
    let response = error_response(418, "teapot".to_string());
    assert_eq!((response.status, response.message.as_str()), (418, "teapot"));
}

#[test]
fn a_json_completion_is_rewritten() {
    let map = headers(&[("content-type", "application/json"), ("content-length", "999")]);
    let body = format!("{{\"choices\":[{{\"message\":{{\"content\":\"{OPEN}hm{CLOSE}yes\"}}}}]}}");
    match rewrite_full_json(map, Ok(body.into_bytes()), ReplacementConfig::default()) {
        JsonReply::Body(reply, new_body) => {
            assert_eq!(values(&reply, "content-type"), vec!["application/json"]);
            assert!(!reply.contains_key("content-length"));
            assert_eq!(
                String::from_utf8(new_body).unwrap(),
                "{\"choices\":[{\"message\":{\"content\":\"<think>hm</think>yes\"}}]}"
            );
        }
        _ => panic!(),
    }
}

#[test]
fn a_body_that_is_not_json_is_handed_on() {
    let map = headers(&[("content-length", "3"), ("x", "y")]);
    let raw = format!("not json {OPEN}").into_bytes();
    match rewrite_full_json(map, Ok(raw.clone()), ReplacementConfig::default()) {
        JsonReply::Body(reply, new_body) => {
            assert_eq!(new_body, raw);
            assert_eq!(reply, headers(&[("x", "y")]));
        }
        _ => panic!(),
    }
}

#[test]
fn a_body_that_cannot_be_read_is_a_bad_gateway() {
    let reply = rewrite_full_json(HeaderMap::new(), Err("eof".to_string()), ReplacementConfig::default());
    match reply {
        JsonReply::Unreadable(response) => {
            assert_eq!(response.status, 502);
            assert_eq!(response.message, "failed to read upstream body: eof");
        }
        _ => panic!(),
    }
}

#[test]
fn a_body_that_cannot_be_written_is_an_internal_error() {
    let cause = serde_json::from_str::<serde_json::Value>("{").unwrap_err();
    let text = cause.to_string();
    match json_reply(headers(&[("x", "y")]), b"{}".to_vec(), JsonBody::Unprintable(cause)) {
        JsonReply::Unprintable(response, e) => {
            assert_eq!(response.status, 500);
            assert_eq!(response.message, "internal rewrite error");
            assert_eq!(e.to_string(), text);
        }
        _ => panic!(),
    }
    match json_reply(HeaderMap::new(), b"{}".to_vec(), JsonBody::Rewritten(b"[]".to_vec())) {
        JsonReply::Body(_, body) => assert_eq!(body, b"[]"),
        _ => panic!(),
    }
    match json_reply(HeaderMap::new(), b"{}".to_vec(), JsonBody::NotJson) {
        JsonReply::Body(_, body) => assert_eq!(body, b"{}"),
        _ => panic!(),
    }
}

#[test]
fn a_stream_keeps_its_headers() {
    let map = headers(&[("content-type", "text/event-stream"), ("content-length", "5"), ("x", "y")]);
    let start = rewrite_streaming(&map, ReplacementConfig::default()).unwrap();
    assert_eq!(start.headers, headers(&[("content-type", "text/event-stream"), ("x", "y")]));
    assert_eq!(start.transformer.waiting_len(), 0);
    assert!(!start.transformer.replacer.opened);
}
