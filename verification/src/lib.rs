//! One-way transport of byte streams across a data diode.
//!
//! The library holds the protocol (block framing, forward error correction
//! parameters) and the decisions of every stage of the two pipelines. Sockets,
//! threads and channels live in the program built around it.

pub mod config;
pub mod protocol;
pub mod receive;
pub mod send;
pub mod udp;
