//! A QUIC (version 1) transport library whose wire formats, tables and
//! transmission rules carry machine-checked contracts.

pub mod clock;
pub mod conn;
pub mod early_data;
pub mod endpoint;
pub mod errors;
pub mod frame;
pub mod hp;
pub mod math;
pub mod mux;
pub mod new_reno;
pub mod pacer;
pub mod packet;
pub mod packet_protection;
pub mod pmtud;
pub mod pn_space;
pub mod primitives;
pub mod qkdf;
pub mod range_buffer;
pub mod rtt;
pub mod secrets;
pub mod varint;
pub mod wire;
