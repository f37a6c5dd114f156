//! A minimal DNS message codec: the fixed header with its bit-packed flags,
//! length-prefixed domain names, one question and one IPv4 answer record,
//! and the responder step that turns a query datagram into a reply.

pub mod error;
pub mod label;
pub mod name;
pub mod wire;
pub mod question;
pub mod header;
pub mod message;
pub mod responder;
