//! A DNS tunnel core: the establishment handshake, per-record-type payload
//! codecs, and a sliding-window reliable transfer protocol layered over
//! polled DNS exchanges.

pub mod ascii;
pub mod domain;
pub mod establish;
pub mod flags;
pub mod header;
pub mod message;
pub mod record_code;
pub mod session;
pub mod wwr;
