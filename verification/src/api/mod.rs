//! What the HTTP and WebSocket routes decide.

pub mod cursor;
pub mod routes;
pub mod terminal;
pub mod ws;
