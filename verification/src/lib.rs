//! An authoritative DNS server library: wire format, zone files and query
//! resolution.

pub mod dns;
pub mod text;
pub mod text_laws;
