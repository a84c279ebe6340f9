//! What a connection sends.
pub mod ack;
pub mod application;
pub mod batch;
pub mod builder;
pub mod connection;
pub mod crypto;
pub mod draft;
pub mod eligibility;
pub mod emission;
pub mod laws;
pub mod one_rtt;
pub mod packets;
pub mod path;
pub mod room;
pub mod transaction;
