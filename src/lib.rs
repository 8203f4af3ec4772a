//! A small message broker: newline-delimited frames on the wire, and a store
//! of named FIFO queues shared by every connection.

pub mod codec;
pub mod session;
pub mod store;
