#![verifier::loop_isolation(false)]
//! A DNS wire-format codec and the decision core of a recursive resolver.
//!
//! `packet` holds a seekable octet cursor for reading and writing the
//! big-endian primitives and compressed names of RFC 1035 messages,
//! `dns` the message model (header, question, record, packet) with its
//! parser and serializer, and `resolver` the pure decision logic of the
//! iterative resolution loop. All I/O lives outside this crate: callers
//! hand in received datagrams as byte vectors and send out the bytes
//! that the serializer produced.

pub mod dns;
pub mod name;
pub mod packet;
pub mod resolver;
pub mod wire;
