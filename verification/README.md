# OpenAI OSS Relay

A tiny reverse proxy that forwards HTTP requests to an upstream service and
rewrites OpenAI-style chat completions on their way back. Endpoints other than
chat are proxied unchanged. In the responses of `/v1/chat/completions` the
configured open and close patterns are replaced by tags, in JSON bodies as well
as in server-sent event streams.

`src/` is the library: every decision and every rewrite, verified with Verus.
`app/` is the program around it: sockets, environment and logging.

| Variable        | Default     |
|-----------------|-------------|
| `LISTEN_ADDR`   | `0.0.0.0`   |
| `LISTEN_PORT`   | `8080`      |
| `UPSTREAM_HOST` | `127.0.0.1` |
| `UPSTREAM_PORT` | `1234`      |

The patterns and tags are the values of `ReplacementConfig::default()`.

The contracts of the outside functions that the library calls are stated, not
proved: they stand in `buffer.rs`, `headers.rs`, `json.rs`, `text.rs` and
`uri.rs`, each with the name of the function.
