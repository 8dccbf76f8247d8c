//! The compiler wrapper: asking the daemon, and what to do when it does not answer.
//!
//! The wrapper reports only what a compiler did. Whatever goes wrong with the daemon, the answer
//! is to run the compiler, never a failure that the compiler did not report.

pub mod compile;
pub mod laws;
pub mod local;
pub mod relay;
pub mod transport;
