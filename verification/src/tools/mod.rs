//! What the command line tools share: addresses, application protocols and the
//! bookkeeping of UDP sockets.

pub mod addr;
pub mod packet_batch;
pub mod proto;
pub mod sockaddr;
pub mod socket_table;
