//! Streaming multi-pattern exact-match engine.
//!
//! For each of several "source" byte sequences, the library finds every run of
//! bytes in a single "target" byte stream that reproduces the whole source,
//! scanning the target once, forward, one byte at a time.  Each find is
//! reported as an offset pair `(start, end)` into the target, where `end` is
//! the offset of the last matching byte.
//!
//! The matcher is deliberately naive: on a mismatch in the middle of an
//! attempt it restarts from the beginning of the source at the *next* target
//! byte, without failure-function backtracking, so occurrences that overlap a
//! failed attempt can be missed.  The spec-level model in [`machine`] states
//! exactly which occurrences are reported.

pub mod driver;
pub mod machine;
pub mod matcher;
