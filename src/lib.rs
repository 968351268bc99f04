//! Resolves IPv4 addresses to geographic locations through an in-memory index of
//! network blocks, partitioned by the first two octets of each address.
pub mod datasets;
pub mod error;
pub mod ipv4;
pub mod network;
pub mod db;
pub mod query;
