//! The payload types this hands out. Both are in the range a session is free
//! to assign, and the SDP a receiver is given says which is which.

use vstd::prelude::*;

verus! {

/// H.264.
pub const VIDEO: u8 = 96;

/// AAC.
pub const AUDIO: u8 = 97;

} // verus!
