//! Spectral morphing of two audio signals: the sample-exact bookkeeping.
//!
//! The crate holds the parts of a spectral morph processor that are decided
//! by sample counts and indices alone: the sliding history buffer, the layout
//! of a morphed window, the band of bins behind one magnitude, the crossfade
//! ramp and the block-by-block continuity state. The arithmetic on samples
//! is the caller's: it is handed in as functions, and the contracts say what
//! those functions are given and where their results go. Every function is
//! verified against its contract.

pub mod blend;
pub mod layout;
pub mod morph;
pub mod processor;
pub mod util;
