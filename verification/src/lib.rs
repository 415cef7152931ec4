//! An in-memory key-value server core that speaks RESP: the frame codec, a
//! store with expiring entries, the command engine, and both sides of
//! master/replica replication. Sockets, threads and the clock stay with the
//! caller, which hands this crate bytes, connection ids and timestamps.

pub mod command;
pub mod connection;
pub mod decimal;
pub mod decode;
pub mod frame;
pub mod kinds;
pub mod laws;
pub mod parser;
pub mod reading;
pub mod replica;
pub mod role;
pub mod server;
pub mod snapshot;
pub mod store;
pub mod stream;
pub mod text;
