//! Per-core CPU frequency sampling engine: a fixed-capacity running
//! average per core, parsers that normalize the two operating-system
//! frequency sources into one integer sample stream, core-set
//! resolution, and the scheduling decisions of the sampling loop.

pub mod digits;
pub mod errors;
pub mod probe;
pub mod runner;
pub mod stat;
