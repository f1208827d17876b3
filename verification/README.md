# http_sockets

A small chat server over HTTP and WebSockets. `src/` is the library, verified with
Verus: the WebSocket frame format (parsing, packing, masking), the reassembly of a
client message from the chunks read off a connection, the opening handshake (SHA-1
and base64 through the `sha1` and `base64` crates, whose results are named, not
computed, in the contracts), the registry of sessions (tokio channels: the contracts
say on which sender each copy of a broadcast is handed to `send`, not whether the
receiving end takes it), the reading of a request body with retries, and the static routes.

`app/main.rs` is the server around it: argument handling with `clap`, the tokio
listener and connection tasks, the JSON of chat messages with `serde_json`, session
ids from `uuid`, and the files of the static pages.
