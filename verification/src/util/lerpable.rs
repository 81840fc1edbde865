//! Linear interpolation as a capability of a weight.

use vstd::prelude::*;

verus! {

/// A weight that can interpolate between two values of type `Bound`.
///
/// `lerp` is meant to return `from * (1 - w) + to * w` for the weight `w`:
/// `from` at weight zero, `to` at weight one, and beyond them outside that
/// range, since the weight is not clamped. `invlerp` is meant to go the
/// other way, `(w - from) / (to - from)`, and has no meaning where `from`
/// equals `to`. The arithmetic is the implementor's, so neither method
/// carries a contract; callers state what the methods were given.
pub trait Lerpable<Bound> {
    fn lerp(&self, from: Bound, to: Bound) -> Bound;

    fn invlerp(&self, from: Bound, to: Bound) -> Bound;
}

/// `out` is `from` interpolated towards `to` sample by sample: element `i`
/// is what `weights[i]` makes of `from[i]` and `to[i]`.
pub open spec fn lerped<W: Lerpable<T>, T>(
    weights: Seq<W>,
    from: Seq<T>,
    to: Seq<T>,
    out: Seq<T>,
) -> bool {
    &&& out.len() == from.len()
    &&& to.len() == from.len()
    &&& weights.len() == from.len()
    &&& forall|i: int|
        0 <= i < out.len() ==> call_ensures(W::lerp, (&weights[i], from[i], to[i]), #[trigger] out[i])
}

/// Interpolates sample by sample.
pub fn lerp_each<W: Lerpable<T>, T: Copy>(weights: &[W], from: &[T], to: &[T]) -> (out: Vec<T>)
    requires
        weights@.len() == from@.len(),
        from@.len() == to@.len(),
    ensures
        lerped(weights@, from@, to@, out@),
{
    let n = from.len();
    let mut out: Vec<T> = Vec::with_capacity(n);
    let mut i: usize = 0;
    while i < n
        invariant
            i <= n,
            n == from@.len(),
            weights@.len() == n,
            to@.len() == n,
            out@.len() == i,
            forall|j: int|
                0 <= j < i ==> call_ensures(
                    W::lerp,
                    (&weights@[j], from@[j], to@[j]),
                    #[trigger] out@[j],
                ),
        decreases n - i,
    {
        let v = weights[i].lerp(from[i], to[i]);
        out.push(v);
        i += 1;
    }
    out
}

} // verus!
