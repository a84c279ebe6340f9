//! One connection.
pub mod arena;
pub mod control;
pub mod links;
pub mod recv;
pub mod send;
pub mod stream_journal;
pub mod streams;
pub mod transmit;
