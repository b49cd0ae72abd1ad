//! An event-recording and deterministic-replay library.
//!
//! A [`Logger`] records opaque byte payloads together with the duration,
//! in nanoseconds, since recording began, and later replays them at the
//! same relative cadence against a caller-driven poll loop.  The recorded
//! stream can be encoded to bytes and decoded back with full fidelity.

use vstd::prelude::*;

mod codec;
mod logger;

pub use codec::decode_log_file;
pub use codec::encode_log_file;
pub use logger::Log;
pub use logger::LogError;
pub use logger::LogFile;
pub use logger::Logger;

verus! {

} // verus!
