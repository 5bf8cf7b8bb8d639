pub mod buffer;
pub mod config;
pub mod connection;
pub mod crypto;
pub mod error;
pub mod frame;
pub mod handshake;
pub mod interop;
pub mod laws;
pub mod packet;
pub mod protection;
pub mod runtime;
pub mod space;
pub mod tls;
pub mod varint;
pub mod wire;
