use hyper::Uri;
use openai_oss_relay::uri::MAX_LEN;
use openai_oss_relay::{ConnectionConfig, EnvConfig, ProxyConfig, ReplacementConfig};

fn vars(pairs: &[(&str, &str)]) -> Vec<(String, String)> {
    pairs.iter().map(|(n, v)| (n.to_string(), v.to_string())).collect()
}

fn upstream(host: &str, port: u16) -> ProxyConfig {
    ProxyConfig {
        connect_cfg: ConnectionConfig {
            upstream_host: host.to_string(),
            upstream_port: port,
            ..ConnectionConfig::default()
        },
        replace_cfg: ReplacementConfig::default(),
    }
}

fn uri(text: &str) -> Uri {
    text.parse().unwrap()
}

#[test]
fn default_connections() {
    let cfg = ConnectionConfig::default();
    assert_eq!(cfg.listen_addr, "0.0.0.0");
    assert_eq!(cfg.listen_port, 8080);
    assert_eq!(cfg.upstream_host, "127.0.0.1");
    assert_eq!(cfg.upstream_port, 1234);
}

#[test]
fn default_variable_names() {
    let cfg = EnvConfig::default();
    assert_eq!(cfg.listen_addr, "LISTEN_ADDR");
    assert_eq!(cfg.listen_port, "LISTEN_PORT");
    assert_eq!(cfg.upstream_host, "UPSTREAM_HOST");
    assert_eq!(cfg.upstream_port, "UPSTREAM_PORT");
}

#[test]
fn an_empty_environment_gives_the_defaults() {
    let cfg = ProxyConfig::from_env(&Vec::new());
    assert_eq!(cfg.listen_address(), "0.0.0.0:8080");
    assert_eq!(cfg.upstream_authority(), "127.0.0.1:1234");
    assert_eq!(cfg.replace_cfg.open_tag, "<think>");
}

#[test]
fn the_environment_overrides_the_defaults() {
    let cfg = ProxyConfig::from_env(&vars(&[
        ("PATH", "/bin"),
        ("LISTEN_ADDR", "127.0.0.1"),
        ("LISTEN_PORT", "8081"),
        ("UPSTREAM_HOST", "my.upstream.com"),
        ("UPSTREAM_PORT", "5000"),
    ]));
    assert_eq!(cfg.listen_address(), "127.0.0.1:8081");
    assert_eq!(cfg.upstream_authority(), "my.upstream.com:5000");
}

#[test]
fn a_port_that_cannot_be_read_gives_the_default() {
    let cfg = ProxyConfig::from_env(&vars(&[("LISTEN_PORT", "http"), ("UPSTREAM_PORT", "65536")]));
    assert_eq!(cfg.connect_cfg.listen_port, 8080);
    assert_eq!(cfg.connect_cfg.upstream_port, 1234);
}

#[test]
fn the_first_value_of_a_variable_counts() {
    let cfg = ProxyConfig::from_env(&vars(&[
        ("LISTEN_ADDR", "a"),
        ("LISTEN_ADDR", "b"),
        ("listen_port", "1"),
        ("UPSTREAM_HOST", ""),
    ]));
    assert_eq!(cfg.listen_address(), "a:8080");
    assert_eq!(cfg.upstream_authority(), ":1234");
}

#[test]
fn the_upstream_uri_preserves_path_and_query() {
    let cfg = upstream("my.upstream.com", 5000);
    for target in ["/", "/v1/models", "/v1/chat/completions?stream=true&x=%20", "/a?b?c"] {
        assert!(cfg.has_upstream_uri(&uri(target)));
        let built = cfg.build_upstream_uri(&uri(target));
        assert_eq!(built.scheme_str(), Some("http"));
        assert_eq!(built.authority().unwrap().as_str(), "my.upstream.com:5000");
        assert_eq!(built.path_and_query().unwrap().as_str(), target);
        assert_eq!(built.to_string(), format!("http://my.upstream.com:5000{target}"));
    }
}

#[test]
fn the_upstream_uri_drops_the_original_authority() {
    let cfg = upstream("up", 1);
    let built = cfg.build_upstream_uri(&uri("http://proxy.example:8080/x?y#z"));
    assert_eq!(built.to_string(), "http://up:1/x?y");
    let built = cfg.build_upstream_uri(&uri("http://proxy.example?y"));
    assert_eq!(built.authority().unwrap().as_str(), "up:1");
    assert_eq!(built.path_and_query().unwrap().as_str(), "?y");
}

#[test]
fn a_uri_without_a_path_is_forwarded_to_the_root() {
    let cfg = upstream("up", 1);
    assert!(uri("proxy.example:8080").path_and_query().is_none());
    assert_eq!(cfg.build_upstream_uri(&uri("proxy.example:8080")).to_string(), "http://up:1/");
    assert_eq!(cfg.upstream_uri_text(None), "http://up:1/");
    assert_eq!(cfg.upstream_uri_text(Some("/a?b")), "http://up:1/a?b");
}

#[test]
fn a_host_can_spoil_the_uri() {
    assert!(!upstream("no host", 1).has_upstream_uri(&uri("/")));
    assert!(!upstream("a:b", 1).has_upstream_uri(&uri("/")));
    assert!(upstream("::1", 1).has_upstream_uri(&uri("/")) == false);
    assert!(upstream("[::1]", 1).has_upstream_uri(&uri("/")));
}

#[test]
fn a_uri_that_would_be_too_long_is_refused() {
    let cfg = upstream("up", 1);
    let target = |len: usize| format!("/{}", "a".repeat(len - 1));
    // `http://up:1` takes eleven bytes.
    assert_eq!(MAX_LEN, 65534);
    assert!(cfg.has_upstream_uri(&uri(&target(MAX_LEN - 11))));
    assert!(!cfg.has_upstream_uri(&uri(&target(MAX_LEN - 10))));
    // Parts can be longer than a URI may be.
    let mut parts = hyper::http::uri::Parts::default();
    parts.path_and_query = Some(format!("{}?#", target(MAX_LEN + 1)).parse().unwrap());
    let long = Uri::from_parts(parts).unwrap();
    assert!(long.path_and_query().unwrap().as_str().contains('#'));
    assert!(!cfg.has_upstream_uri(&long));
}
