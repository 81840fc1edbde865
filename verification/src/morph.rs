//! The index side of the per-bin morph rule: which bins a magnitude is
//! averaged over, and where the phase of a morphed bin comes from.

use vstd::prelude::*;

verus! {

/// Bins of spread per unit of the spread control.
pub const SPREAD_SCALE: usize = 50;

/// Where the phase of a morphed bin is taken from.
#[derive(Clone, Copy, Debug, PartialEq, Eq)]
pub enum PhaseSource {
    /// The angle of channel A's bin.
    A,
    /// The angle of channel B's bin.
    B,
    /// The two angles, interpolated with the morph weight.
    Blend,
}

/// The phase rule as a function of which bins are zero: a zero bin has no
/// angle of its own, so the other channel's angle is used; B's when both are
/// zero.
pub open spec fn phase_source_of(a_is_zero: bool, b_is_zero: bool) -> PhaseSource {
    if a_is_zero {
        PhaseSource::B
    } else if b_is_zero {
        PhaseSource::A
    } else {
        PhaseSource::Blend
    }
}

/// Decides where the phase of a morphed bin comes from.
pub fn phase_source(a_is_zero: bool, b_is_zero: bool) -> (r: PhaseSource)
    ensures
        r == phase_source_of(a_is_zero, b_is_zero),
{
    if a_is_zero {
        PhaseSource::B
    } else if b_is_zero {
        PhaseSource::A
    } else {
        PhaseSource::Blend
    }
}

/// Half-width of the spread band for a spread control that has been scaled
/// by `SPREAD_SCALE` and rounded down: one bin more than that.
pub fn half_width(scaled_spread: usize) -> (z: usize)
    requires
        scaled_spread <= SPREAD_SCALE,
    ensures
        z == scaled_spread + 1,
        1 <= z <= SPREAD_SCALE + 1,
{
    scaled_spread + 1
}

/// Lower end of the band around `bin`: `bin - half_width`, not below bin 0.
pub open spec fn band_lo(bin: int, half_width: int) -> int {
    if bin - half_width < 0 {
        0
    } else {
        bin - half_width
    }
}

/// Upper end (exclusive) of the band around `bin`: `bin + half_width`, not
/// above the last bin, `window - 1`.
pub open spec fn band_hi(bin: int, half_width: int, window: int) -> int {
    if bin + half_width > window - 1 {
        window - 1
    } else {
        bin + half_width
    }
}

/// The bins `lo..hi` over which the magnitude at `bin` is averaged.
pub fn spread_band(bin: usize, half_width: usize, window: usize) -> (r: (usize, usize))
    requires
        bin < window,
    ensures
        r.0 == band_lo(bin as int, half_width as int),
        r.1 == band_hi(bin as int, half_width as int, window as int),
        r.0 <= bin <= r.1 < window,
{
    let lo = if half_width > bin {
        0
    } else {
        bin - half_width
    };
    let hi = if half_width > window - 1 - bin {
        window - 1
    } else {
        bin + half_width
    };
    (lo, hi)
}

/// With a half-width of at least one bin and a window of at least two, no
/// band is empty.
pub proof fn lemma_band_not_empty(bin: int, half_width: int, window: int)
    requires
        0 <= bin < window,
        1 <= half_width,
        2 <= window,
    ensures
        band_lo(bin, half_width) < band_hi(bin, half_width, window),
{
}

} // verus!
