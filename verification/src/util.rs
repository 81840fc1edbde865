//! Building blocks shared by the processor.

pub mod lerpable;
pub mod ring_buffer;
