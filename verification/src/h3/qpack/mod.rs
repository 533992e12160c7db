//! Header compression for HTTP/3 (RFC 9204).

pub mod dynamic_table;
pub mod table_laws;
