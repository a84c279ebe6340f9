//! Which stream bytes are in flight, which have to be sent again, and which are
//! acknowledged but not yet released.
pub mod journal;
pub mod laws;
pub mod model;
pub mod sound;
