//! Settings of the relay.
//!
//! | Variable        | Default            |
//! |-----------------|--------------------|
//! | `LISTEN_ADDR`   | `0.0.0.0`          |
//! | `LISTEN_PORT`   | `8080`             |
//! | `UPSTREAM_HOST` | `127.0.0.1`        |
//! | `UPSTREAM_PORT` | `1234`             |

use hyper::Uri;
use vstd::prelude::*;

use crate::decimal;
use crate::text;
use crate::uri;

verus! {

/// Replacement rules for chat completions.
#[derive(Debug, Clone, Copy)]
pub struct ReplacementConfig {
    /// Pattern that marks the start of a block.
    pub open_pattern: &'static str,
    /// Pattern that marks the end of a block.
    pub close_pattern: &'static str,
    /// Tag that takes the place of `open_pattern`.
    pub open_tag: &'static str,
    /// Tag that takes the place of `close_pattern`.
    pub close_tag: &'static str,
}

/// The default replacement rules.
///
/// Edit these values to change the defaults.
impl Default for ReplacementConfig {
    fn default() -> (cfg: Self)
        ensures
            cfg.open_pattern@ == "<|channel|>analysis<|message|>"@,
            cfg.close_pattern@ == "<|end|><|start|>assistant<|channel|>final<|message|>"@,
            cfg.open_tag@ == "<think>"@,
            cfg.close_tag@ == "</think>"@,
    {
        ReplacementConfig {
            open_pattern: "<|channel|>analysis<|message|>",
            close_pattern: "<|end|><|start|>assistant<|channel|>final<|message|>",
            open_tag: "<think>",
            close_tag: "</think>",
        }
    }
}

/// Where the relay listens and where it forwards to.
#[derive(Debug, Clone)]
pub struct ConnectionConfig {
    /// Listening address of the relay.
    pub listen_addr: String,
    /// Port on which the relay listens.
    pub listen_port: u16,
    /// Host of the upstream service.
    pub upstream_host: String,
    /// Port of the upstream service.
    pub upstream_port: u16,
}

/// The default connections.
///
/// Edit these values to change the defaults.
impl Default for ConnectionConfig {
    fn default() -> (cfg: Self)
        ensures
            cfg.listen_addr@ == "0.0.0.0"@,
            cfg.listen_port == 8080,
            cfg.upstream_host@ == "127.0.0.1"@,
            cfg.upstream_port == 1234,
    {
        ConnectionConfig {
            listen_addr: "0.0.0.0".to_owned(),
            listen_port: 8080,
            upstream_host: "127.0.0.1".to_owned(),
            upstream_port: 1234,
        }
    }
}

/// The names of the environment variables.
#[derive(Debug, Clone, Copy)]
pub struct EnvConfig {
    /// Name of the variable for the listening address.
    pub listen_addr: &'static str,
    /// Name of the variable for the listening port.
    pub listen_port: &'static str,
    /// Name of the variable for the upstream host.
    pub upstream_host: &'static str,
    /// Name of the variable for the upstream port.
    pub upstream_port: &'static str,
}

/// The default names.
///
/// Edit these values to change the defaults.
impl Default for EnvConfig {
    fn default() -> (cfg: Self)
        ensures
            cfg.listen_addr@ == "LISTEN_ADDR"@,
            cfg.listen_port@ == "LISTEN_PORT"@,
            cfg.upstream_host@ == "UPSTREAM_HOST"@,
            cfg.upstream_port@ == "UPSTREAM_PORT"@,
    {
        EnvConfig {
            listen_addr: "LISTEN_ADDR",
            listen_port: "LISTEN_PORT",
            upstream_host: "UPSTREAM_HOST",
            upstream_port: "UPSTREAM_PORT",
        }
    }
}

/// All settings of the relay.
#[derive(Debug, Clone)]
pub struct ProxyConfig {
    /// Configuration for connections.
    pub connect_cfg: ConnectionConfig,
    /// Replacement rules for chat completions.
    pub replace_cfg: ReplacementConfig,
}

/// The value that `vars` give to the variable `name`.
pub open spec fn variable(vars: Seq<(String, String)>, name: Seq<char>) -> Option<Seq<char>>
    decreases vars.len(),
{
    if vars.len() == 0 {
        None
    } else if vars[0].0@ == name {
        Some(vars[0].1@)
    } else {
        variable(vars.skip(1), name)
    }
}

/// The text that a variable sets, or `default` where it is not set.
pub open spec fn text_setting(value: Option<Seq<char>>, default: Seq<char>) -> Seq<char> {
    match value {
        Some(text) => text,
        None => default,
    }
}

/// The port that a variable sets, or `default` where it is not set or is no port.
pub open spec fn port_setting(value: Option<Seq<char>>, default: u16) -> u16 {
    match value {
        Some(text) => match decimal::port_number(text) {
            Some(port) => port,
            None => default,
        },
        None => default,
    }
}

/// A host and a port, with a colon between them.
pub open spec fn host_and_port(host: Seq<char>, port: u16) -> Seq<char> {
    host + seq![':'] + decimal::decimal(port as nat)
}

/// The value that `vars` give to the variable `name`.
fn find_variable(vars: &Vec<(String, String)>, name: &str) -> (value: Option<String>)
    ensures
        match value {
            Some(text) => variable(vars@, name@) == Some(text@),
            None => variable(vars@, name@) is None,
        },
{
    let mut i: usize = 0;
    assert(vars@.skip(0) == vars@);
    while i < vars.len()
        invariant
            i <= vars.len(),
            variable(vars@, name@) == variable(vars@.skip(i as int), name@),
        decreases vars.len() - i,
    {
        assert(vars@.skip(i as int).skip(1) == vars@.skip(i + 1));
        if text::same_text(vars[i].0.as_str(), name) {
            return Some(vars[i].1.clone());
        }
        i = i + 1;
    }
    None
}

/// [`text_setting`] of a variable.
fn find_text(vars: &Vec<(String, String)>, name: &str, default: String) -> (text: String)
    ensures
        text@ == text_setting(variable(vars@, name@), default@),
{
    match find_variable(vars, name) {
        Some(text) => text,
        None => default,
    }
}

/// [`port_setting`] of a variable.
fn find_port(vars: &Vec<(String, String)>, name: &str, default: u16) -> (port: u16)
    ensures
        port == port_setting(variable(vars@, name@), default),
{
    match find_variable(vars, name) {
        Some(text) => match decimal::parse_port(text.as_str()) {
            Some(port) => port,
            None => default,
        },
        None => default,
    }
}

/// [`host_and_port`] as a string.
fn join_host_and_port(host: &str, port: u16) -> (text: String)
    ensures
        text@ == host_and_port(host@, port),
{
    let mut text = host.to_owned();
    text.push(':');
    decimal::push_decimal(&mut text, port);
    text
}

impl ProxyConfig {
    /// Builds a configuration from environment variables, given as pairs of
    /// name and value. Of two values for one name the first counts.
    ///
    /// A default is used where a variable is not set, and where a port cannot
    /// be read.
    pub fn from_env(vars: &Vec<(String, String)>) -> (cfg: Self)
        ensures
            cfg.connect_cfg.listen_addr@ == text_setting(
                variable(vars@, "LISTEN_ADDR"@),
                "0.0.0.0"@,
            ),
            cfg.connect_cfg.listen_port == port_setting(variable(vars@, "LISTEN_PORT"@), 8080),
            cfg.connect_cfg.upstream_host@ == text_setting(
                variable(vars@, "UPSTREAM_HOST"@),
                "127.0.0.1"@,
            ),
            cfg.connect_cfg.upstream_port == port_setting(variable(vars@, "UPSTREAM_PORT"@), 1234),
            cfg.replace_cfg.open_pattern@ == "<|channel|>analysis<|message|>"@,
            cfg.replace_cfg.close_pattern@
                == "<|end|><|start|>assistant<|channel|>final<|message|>"@,
            cfg.replace_cfg.open_tag@ == "<think>"@,
            cfg.replace_cfg.close_tag@ == "</think>"@,
    {
        let defaults = ConnectionConfig::default();
        let env_cfg = EnvConfig::default();

        ProxyConfig {
            connect_cfg: ConnectionConfig {
                listen_addr: find_text(vars, env_cfg.listen_addr, defaults.listen_addr),
                listen_port: find_port(vars, env_cfg.listen_port, defaults.listen_port),
                upstream_host: find_text(vars, env_cfg.upstream_host, defaults.upstream_host),
                upstream_port: find_port(vars, env_cfg.upstream_port, defaults.upstream_port),
            },
            replace_cfg: ReplacementConfig::default(),
        }
    }

    /// The address and port to listen on (e.g. `"0.0.0.0:8080"`).
    pub fn listen_address(&self) -> (address: String)
        ensures
            address@ == host_and_port(self.connect_cfg.listen_addr@, self.connect_cfg.listen_port),
    {
        join_host_and_port(self.connect_cfg.listen_addr.as_str(), self.connect_cfg.listen_port)
    }

    /// The authority of the upstream service.
    pub open spec fn authority(self) -> Seq<char> {
        host_and_port(self.connect_cfg.upstream_host@, self.connect_cfg.upstream_port)
    }

    /// Authority string used for the `Host` header (e.g. `"127.0.0.1:1234"`).
    pub fn upstream_authority(&self) -> (authority: String)
        ensures
            authority@ == self.authority(),
    {
        join_host_and_port(self.connect_cfg.upstream_host.as_str(), self.connect_cfg.upstream_port)
    }

    /// The text of the URI to which a request for `target` is forwarded.
    pub open spec fn upstream_text(self, target: Option<Seq<char>>) -> Seq<char> {
        "http://"@ + self.authority() + text_setting(target, "/"@)
    }

    /// Whether the host of the upstream service is nothing but a host: no
    /// character of it ends the authority of a URI.
    pub open spec fn has_plain_host(self) -> bool {
        forall|i: int|
            0 <= i < self.connect_cfg.upstream_host@.len() ==> !seq!['/', '?', '#'].contains(
                #[trigger] self.connect_cfg.upstream_host@[i],
            )
    }

    /// The text of the URI to which a request for `target` is forwarded.
    pub fn upstream_uri_text(&self, target: Option<&str>) -> (text: String)
        ensures
            text@ == self.upstream_text(
                match target {
                    Some(t) => Some(t@),
                    None => None,
                },
            ),
    {
        let mut text = "http://".to_owned();
        text.append(self.upstream_authority().as_str());
        match target {
            Some(t) => text.append(t),
            None => text.append("/"),
        }
        text
    }

    /// Whether [`build_upstream_uri`](Self::build_upstream_uri) has a URI to give.
    pub fn has_upstream_uri(&self, orig_uri: &Uri) -> (r: bool)
        ensures
            r == uri::parsed_uri(self.upstream_text(uri::uri_target(*orig_uri))) is Some,
    {
        let text = self.upstream_uri_text(uri::target_of(orig_uri));
        uri::parse_uri(text.as_str()).is_some()
    }

    /// Constructs a full URI that points to the upstream service while
    /// preserving path and query string from the original request.
    pub fn build_upstream_uri(&self, orig_uri: &Uri) -> (uri: Uri)
        requires
            uri::parsed_uri(self.upstream_text(uri::uri_target(*orig_uri))) is Some,
        ensures
            uri::parsed_uri(self.upstream_text(uri::uri_target(*orig_uri))) == Some(uri),
            // It points to the upstream service, and path and query are preserved.
            self.has_plain_host() && is_absolute_target(uri::uri_target(*orig_uri)) ==> {
                &&& uri::uri_authority(uri) == Some(self.authority())
                &&& uri::uri_target(uri) == Some(text_setting(uri::uri_target(*orig_uri), "/"@))
            },
            ({
                let host = self.connect_cfg.upstream_host@;
                let port = decimal::decimal(self.connect_cfg.upstream_port as nat);
                !host.contains('/') && !host.contains('?') && !host.contains('#') ==> match uri::uri_target(
                    *orig_uri,
                ) {
                    Some(t) => t.len() > 0 && (t[0] == '/' || t[0] == '?') ==> {
                        &&& uri::uri_authority(uri) == Some(host + ":"@ + port)
                        &&& uri::uri_target(uri) == Some(t)
                    },
                    None => {
                        &&& uri::uri_authority(uri) == Some(host + ":"@ + port)
                        &&& uri::uri_target(uri) == Some("/"@)
                    },
                }
            }),
    {
        let target = uri::target_of(orig_uri);
        let text = self.upstream_uri_text(target);
        let parsed = uri::parse_uri(text.as_str());
        proof {
            if self.has_plain_host() && is_absolute_target(uri::uri_target(*orig_uri)) {
                lemma_upstream_text(*self, uri::uri_target(*orig_uri));
            }
            let host = self.connect_cfg.upstream_host@;
            if !host.contains('/') && !host.contains('?') && !host.contains('#') {
                lemma_plain_host(*self);
                reveal_strlit(":");
                assert(":"@ == seq![':']);
            }
        }
        parsed.unwrap()
    }
}

/// Whether a target begins with a path or a query, as those of all requests do
/// but `*`. No target stands for `/`.
pub open spec fn is_absolute_target(target: Option<Seq<char>>) -> bool {
    target matches Some(t) ==> t.len() > 0 && (t[0] == '/' || t[0] == '?')
}

proof fn lemma_upstream_text(cfg: ProxyConfig, target: Option<Seq<char>>)
    requires
        cfg.has_plain_host(),
        is_absolute_target(target),
        target matches Some(t) ==> !t.contains('#'),
    ensures
        text::begins_with(cfg.upstream_text(target), "http://"@),
        uri::authority_part(cfg.upstream_text(target)) == cfg.authority(),
        uri::target_part(cfg.upstream_text(target)) == text_setting(target, "/"@),
{
    let text = cfg.upstream_text(target);
    let authority = cfg.authority();
    let rest = text_setting(target, "/"@);
    let stops = seq!['/', '?', '#'];
    reveal_strlit("http://");
    reveal_strlit("/");
    assert(text.take(7) == "http://"@);
    assert(text.skip(7) == authority + rest);
    assert(stops[0] == '/' && stops[1] == '?' && stops[2] == '#');
    assert forall|i: int| 0 <= i < authority.len() implies !stops.contains(
        #[trigger] authority[i],
    ) by {
        let host = cfg.connect_cfg.upstream_host@;
        if i < host.len() {
            assert(authority[i] == host[i]);
        } else if i > host.len() {
            let port = decimal::decimal(cfg.connect_cfg.upstream_port as nat);
            assert(authority[i] == port[i - host.len() - 1]);
            decimal::lemma_decimal_is_digits(cfg.connect_cfg.upstream_port as nat);
            assert(decimal::is_digit(port[i - host.len() - 1]));
        }
    }
    assert(stops.contains(rest[0]));
    text::lemma_head_until(authority, rest, stops);
    assert(text.skip(7 + authority.len() as int) == rest);
    let hash = seq!['#'];
    assert(rest + Seq::<char>::empty() == rest);
    assert forall|i: int| 0 <= i < rest.len() implies !hash.contains(#[trigger] rest[i]) by {
        if hash.contains(rest[i]) {
            assert(rest[i] == '#');
            assert(rest.contains('#'));
        }
    }
    text::lemma_head_until(rest, Seq::<char>::empty(), hash);
}

proof fn lemma_plain_host(cfg: ProxyConfig)
    requires
        !cfg.connect_cfg.upstream_host@.contains('/'),
        !cfg.connect_cfg.upstream_host@.contains('?'),
        !cfg.connect_cfg.upstream_host@.contains('#'),
    ensures
        cfg.has_plain_host(),
{
    let host = cfg.connect_cfg.upstream_host@;
    assert forall|i: int| 0 <= i < host.len() implies !seq!['/', '?', '#'].contains(
        #[trigger] host[i],
    ) by {
        assert(host.contains(host[i]));
    }
}

/// Of the values that are given to a variable, the first counts.
pub proof fn law_first_value_counts(
    before: Seq<(String, String)>,
    pair: (String, String),
    after: Seq<(String, String)>,
)
    requires
        forall|i: int| 0 <= i < before.len() ==> (#[trigger] before[i]).0@ != pair.0@,
    ensures
        variable(before + seq![pair] + after, pair.0@) == Some(pair.1@),
    decreases before.len(),
{
    let vars = before + seq![pair] + after;
    if before.len() > 0 {
        assert(vars[0] == before[0]);
        assert(vars.skip(1) == before.skip(1) + seq![pair] + after);
        assert forall|i: int| 0 <= i < before.skip(1).len() implies (
        #[trigger] before.skip(1)[i]).0@ != pair.0@ by {
            assert(before.skip(1)[i] == before[i + 1]);
        }
        law_first_value_counts(before.skip(1), pair, after);
    } else {
        assert(vars[0] == pair);
    }
}

/// A variable to which no value is given is not set.
pub proof fn law_other_variables_are_not_set(vars: Seq<(String, String)>, name: Seq<char>)
    requires
        forall|i: int| 0 <= i < vars.len() ==> (#[trigger] vars[i]).0@ != name,
    ensures
        variable(vars, name) is None,
    decreases vars.len(),
{
    if vars.len() > 0 {
        assert(vars[0].0@ != name);
        assert forall|i: int| 0 <= i < vars.skip(1).len() implies (#[trigger] vars.skip(1)[i]).0@
            != name by {
            assert(vars.skip(1)[i] == vars[i + 1]);
        }
        law_other_variables_are_not_set(vars.skip(1), name);
    }
}

/// A text that is set counts, character by character; the default counts only
/// where none is set.
pub proof fn law_text_that_is_set_counts(text: Seq<char>, default: Seq<char>)
    ensures
        text_setting(Some(text), default) == text,
        text_setting(None, default) == default,
{
}

/// Every port that is set counts, in whatever way it is written; the default
/// counts only where none is set or what is set is no port.
pub proof fn law_port_that_is_set_counts(text: Seq<char>, port: u16, default: u16)
    ensures
        port_setting(Some(decimal::decimal(port as nat)), default) == port,
        port_setting(Some(seq!['+'] + decimal::decimal(port as nat)), default) == port,
        decimal::port_number(text) == Some(port) ==> port_setting(Some(text), default) == port,
        decimal::port_number(text) is None ==> port_setting(Some(text), default) == default,
        port_setting(None, default) == default,
{
    decimal::law_port_numbers_read_back(port);
    let digits = decimal::decimal(port as nat);
    decimal::lemma_decimal_is_digits(port as nat);
    assert((seq!['+'] + digits).skip(1) == digits);
}

/// A request is forwarded to the text of scheme, host, port and target, each as
/// it is; no target stands for the root.
pub proof fn law_target_is_forwarded_as_it_is(cfg: ProxyConfig, target: Seq<char>)
    ensures
        cfg.authority() == cfg.connect_cfg.upstream_host@ + ":"@ + decimal::decimal(
            cfg.connect_cfg.upstream_port as nat,
        ),
        cfg.upstream_text(Some(target)) == "http://"@ + cfg.connect_cfg.upstream_host@ + ":"@
            + decimal::decimal(cfg.connect_cfg.upstream_port as nat) + target,
        cfg.upstream_text(None) == "http://"@ + cfg.connect_cfg.upstream_host@ + ":"@
            + decimal::decimal(cfg.connect_cfg.upstream_port as nat) + "/"@,
{
    reveal_strlit(":");
    assert(":"@ == seq![':']);
    let port = decimal::decimal(cfg.connect_cfg.upstream_port as nat);
    let host = cfg.connect_cfg.upstream_host@;
    assert("http://"@ + (host + ":"@ + port) + target == "http://"@ + host + ":"@ + port + target);
    assert("http://"@ + (host + ":"@ + port) + "/"@ == "http://"@ + host + ":"@ + port + "/"@);
}

/// Whoever reads the text to which a request is forwarded finds the upstream
/// service as its authority and the target as it came.
pub proof fn law_target_can_be_read_off(cfg: ProxyConfig, target: Seq<char>)
    requires
        !cfg.connect_cfg.upstream_host@.contains('/'),
        !cfg.connect_cfg.upstream_host@.contains('?'),
        !cfg.connect_cfg.upstream_host@.contains('#'),
        target.len() > 0,
        target[0] == '/' || target[0] == '?',
        !target.contains('#'),
    ensures
        uri::authority_part(cfg.upstream_text(Some(target))) == cfg.connect_cfg.upstream_host@
            + ":"@ + decimal::decimal(cfg.connect_cfg.upstream_port as nat),
        uri::target_part(cfg.upstream_text(Some(target))) == target,
{
    lemma_plain_host(cfg);
    lemma_upstream_text(cfg, Some(target));
    law_target_is_forwarded_as_it_is(cfg, target);
}

/// An address is a host, a colon and a port in decimal.
pub proof fn law_addresses(host: Seq<char>, port: u16)
    ensures
        host_and_port(host, port) == host + ":"@ + decimal::decimal(port as nat),
{
    reveal_strlit(":");
    assert(":"@ == seq![':']);
}

} // verus!
