//! A small RESP (REdis Serialization Protocol) toolkit and the request logic
//! of a toy redis-compatible server: a byte-level reader, a writer, a
//! key/value store and the command handling of the server.

pub mod text;
pub mod value;
pub mod de;
pub mod store;
pub mod ser;
pub mod server;
pub mod laws;
