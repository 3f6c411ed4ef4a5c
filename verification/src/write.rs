//! What the writer reads and checks before anything is written: raw
//! picture and sound essence, the values properties are given, and the
//! sources of identifiers and time that make a file.

use vstd::prelude::*;

use crate::error::Error;

pub mod dnx;
pub mod names;
pub mod open;
pub mod replay;
pub mod sources;
pub mod value;
pub mod wave;

pub use replay::{Replay, ReplayState, Sidecar};
pub use sources::{Clock, IdSource, RandomIds, SequentialIds, SteppingClock};
pub use value::{ParseRationalError, Rational, Timestamp};

verus! {

/// Whether `e` is media refused with this reason.
pub open spec fn invalid_media(e: Error, reason: Seq<char>) -> bool {
    e matches Error::InvalidMedia { reason: r } && r@ == reason
}

} // verus!
