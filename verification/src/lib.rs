//! The logic of a tiny reverse proxy that rewrites OpenAI-style chat completions.
//!
//! * Endpoints other than chat are proxied unchanged.
//! * Responses of `/v1/chat/completions` are inspected:
//!     - If the response is JSON, every `choices[*].message.content` string is
//!       scanned for the configured open and close patterns, and those patterns
//!       are replaced by the configured tags.
//!     - If the response is a stream of server-sent events
//!       (`text/event-stream`), each event undergoes the same rewrite while the
//!       stream stays a stream.
//!
//! What is decided and computed stands here, with a contract; the sockets are
//! the business of the program around it.
//!
//! * [`config`]: settings, from the environment to the upstream URI.
//! * [`relay`]: what happens to a request and to its response.
//! * [`json`]: the rewrite of a completion that comes as a whole.
//! * [`sse`]: the rewrite of a completion that comes as a stream, and
//!   [`stream`]: what holds of the whole stream.
//! * [`replacer`]: the rewrite of one piece of text after the other.
//! * [`pattern`], [`text`], [`decimal`]: searching, replacing, reading and
//!   writing text.
//! * [`headers`], [`uri`], [`buffer`]: header fields, URIs and byte buffers.

pub mod buffer;
pub mod config;
pub mod decimal;
pub mod headers;
pub mod json;
pub mod pattern;
pub mod relay;
pub mod replacer;
pub mod sse;
pub mod stream;
pub mod text;
pub mod uri;

pub use crate::config::{ConnectionConfig, EnvConfig, ProxyConfig, ReplacementConfig};
pub use crate::replacer::PatternReplacer;
pub use crate::sse::SseTransformer;
