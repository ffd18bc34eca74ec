//! Verified core of a small peer-to-peer chat: message values, the wire
//! framing, the connection tables of the I/O workers, the command language
//! of the console and the bookkeeping of known peers.
pub mod network;
pub mod framing;
pub mod client_io;
pub mod worker;
pub mod commands;
pub mod timestamps;
pub mod clients;
pub mod bench;
