//! A family of small TCP line/packet protocol servers sharing one
//! connection-dispatch pattern. This crate holds the verified core of each
//! protocol: the wire codecs, the per-connection session state, and the
//! decision logic that a handler runs between reads and writes.

pub mod means_to_an_end;
pub mod prime_time;
pub mod smoke_test;
