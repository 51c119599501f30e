//! Traffic aggregation for a network visualiser: host/edge topology,
//! a bounded packet store with oldest-first eviction, packet queries and
//! the request routing of the JSON API.

pub mod text;
pub mod models;
pub mod packet_store;
pub mod topology;
pub mod server;
pub mod capture;
