//! Verified parts of a QUIC stack: the QPACK dynamic table of HTTP/3, two
//! multipath packet schedulers, and the address and socket bookkeeping of the
//! command line tools.

pub mod bytes;
pub mod h3;
pub mod multipath_scheduler;
pub mod tools;
