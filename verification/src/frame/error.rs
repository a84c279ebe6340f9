//! Why a frame could not be read.

use vstd::prelude::*;

use crate::frame::FrameError;

verus! {

/// The error of reading frames.
pub type Decode = FrameError;

} // verus!
