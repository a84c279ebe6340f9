//! The streams of a connection.
pub mod index;
pub mod laws;
pub mod limits;
pub mod receivers;
pub mod senders;
pub mod state;
pub mod table;
