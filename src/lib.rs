//! An authoritative DNS engine: zones of records, a catalog of zones, and the
//! wire format of queries and responses.
pub mod name;
pub mod record;
pub mod zone;
pub mod catalog;
pub mod wire;
pub mod message;
pub mod config;
pub mod server;
