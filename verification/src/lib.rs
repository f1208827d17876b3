//! Server side of a small WebSocket chat: frame parsing and packing,
//! payload unmasking, the reassembly of a client message, the opening
//! handshake, the registry of open sessions, the body of plain HTTP
//! requests and the static routes.

/// Big-endian numbers in bytes.
pub mod bytes;
/// Frame headers, packing of server frames, masking.
pub mod frame;
/// Reading one client message, chunk by chunk.
pub mod reader;
/// Reading the body of a plain HTTP request.
pub mod body;
/// The opening handshake.
pub mod handshake;
/// The registry of open sessions and the commands that drive it.
pub mod sessions;
/// Chat messages.
pub mod chat;
/// The static pages and their routes.
pub mod routes;
