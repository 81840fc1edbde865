//! Where a block's samples lie inside one morphed window: the "current"
//! sub-range that becomes the block's output and the "tail" sub-range that
//! is carried over to the next block.

use vstd::prelude::*;

verus! {

/// Samples skipped at the trailing edge of a morphed window, where the
/// result is least settled.
pub const OFFSET: usize = 400;

/// Window length used when none is given.
pub const DEFAULT_WINDOW_SIZE: usize = 1024;

/// A block of `chunk_len` samples fits a window when the window has room for
/// two such sub-ranges before the skipped trailing edge.
pub open spec fn fits(window: int, chunk_len: int) -> bool {
    0 <= chunk_len && 2 * chunk_len + OFFSET <= window
}

/// Start of the "current" sub-range: `2 * chunk_len + OFFSET` samples before
/// the end of the window.
pub open spec fn current_start(window: int, chunk_len: int) -> int {
    window - (2 * chunk_len + OFFSET)
}

/// Start of the "tail" sub-range: `chunk_len + OFFSET` samples before the end
/// of the window. It begins where the "current" sub-range ends.
pub open spec fn tail_start(window: int, chunk_len: int) -> int {
    window - (chunk_len + OFFSET)
}

/// Decides whether a block of `chunk_len` samples fits a window.
pub fn block_fits(window: usize, chunk_len: usize) -> (b: bool)
    ensures
        b == fits(window as int, chunk_len as int),
{
    window >= OFFSET && chunk_len <= (window - OFFSET) / 2
}

/// The starts of the "current" and the "tail" sub-range of a window, or
/// `None` when the block does not fit.
pub fn segment_starts(window: usize, chunk_len: usize) -> (r: Option<(usize, usize)>)
    ensures
        fits(window as int, chunk_len as int) ==> r == Some(
            (
                current_start(window as int, chunk_len as int) as usize,
                tail_start(window as int, chunk_len as int) as usize,
            ),
        ),
        !fits(window as int, chunk_len as int) ==> r is None,
{
    if block_fits(window, chunk_len) {
        let tail = window - OFFSET - chunk_len;
        Some((tail - chunk_len, tail))
    } else {
        None
    }
}

/// The two sub-ranges lie inside the window, one directly after the other,
/// and end `OFFSET` samples before the end of the window.
pub proof fn lemma_segments_in_window(window: int, chunk_len: int)
    requires
        fits(window, chunk_len),
    ensures
        0 <= current_start(window, chunk_len),
        current_start(window, chunk_len) + chunk_len == tail_start(window, chunk_len),
        tail_start(window, chunk_len) + chunk_len == window - OFFSET,
        chunk_len < window,
{
}

} // verus!
