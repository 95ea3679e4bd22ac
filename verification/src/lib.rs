//! A verified codec and resolver core for a small DNS server.
//!
//! The library covers the 512-byte packet buffer, the name codec with
//! compression-pointer decoding, the header, question and record codecs,
//! whole-packet assembly, and the decision logic of the iterative resolver.
//! UDP transport lives outside the library and hands it plain byte buffers.

pub mod types;
pub mod wire;
pub mod buffer;
pub mod name;
pub mod header;
pub mod question;
pub mod record;
pub mod packet;
pub mod resolver;
