//! The continuity blender: a short crossfade from the tail carried over from
//! the previous block into the freshly computed segment.

use vstd::prelude::*;

verus! {

/// The ramp reaches full weight after one part in `RAMP_RATE` of a block.
pub const RAMP_RATE: usize = 8;

/// A blend weight held exactly, as the fraction `num / den`.
#[derive(Clone, Copy, Debug, PartialEq, Eq)]
pub struct Weight {
    pub num: usize,
    pub den: usize,
}

impl Weight {
    /// A proper weight lies between zero and one.
    pub open spec fn wf(self) -> bool {
        0 < self.den && self.num <= self.den
    }

    /// Weight zero: all of the carried value.
    pub open spec fn is_zero(self) -> bool {
        self.num == 0
    }

    /// Weight one: all of the fresh value.
    pub open spec fn is_one(self) -> bool {
        self.num == self.den
    }
}

/// Numerator of the ramp at sample `i` of a block of `chunk_len` samples:
/// the ramp is `min(1, RAMP_RATE * i / chunk_len)`, which over the
/// denominator `chunk_len` is `min(chunk_len, RAMP_RATE * i)`.
pub open spec fn ramp_num(i: int, chunk_len: int) -> int {
    if RAMP_RATE * i >= chunk_len {
        chunk_len
    } else {
        RAMP_RATE * i
    }
}

/// The ramp at sample `i` of a block of `chunk_len` samples, as a weight.
pub open spec fn ramp(i: int, chunk_len: int) -> Weight {
    Weight { num: ramp_num(i, chunk_len) as usize, den: chunk_len as usize }
}

/// The first sample index at which the ramp has reached one: the least `i`
/// with `RAMP_RATE * i >= chunk_len`.
pub open spec fn saturation(chunk_len: int) -> int {
    (chunk_len + RAMP_RATE - 1) / (RAMP_RATE as int)
}

/// Computes the ramp weight of sample `i`.
pub fn ramp_weight(i: usize, chunk_len: usize) -> (w: Weight)
    requires
        i < chunk_len,
    ensures
        w == ramp(i as int, chunk_len as int),
        w.wf(),
        w.is_zero() <==> i == 0,
        w.is_one() <==> i >= saturation(chunk_len as int),
{
    let full = chunk_len / RAMP_RATE;
    let rest = chunk_len % RAMP_RATE;
    if i > full || (i == full && rest == 0) {
        Weight { num: chunk_len, den: chunk_len }
    } else {
        Weight { num: RAMP_RATE * i, den: chunk_len }
    }
}

/// What sample `i` of a crossfade over `chunk_len` samples may be: the
/// carried value where the ramp is zero, the fresh value where it is one, and
/// in between whatever `blend` returns for the exact weight and the two
/// values.
pub open spec fn blended<T, F: Fn(Weight, T, T) -> T>(
    blend: F,
    i: int,
    chunk_len: int,
    carried: T,
    fresh: T,
    out: T,
) -> bool {
    if ramp_num(i, chunk_len) == 0 {
        out == carried
    } else if ramp_num(i, chunk_len) == chunk_len {
        out == fresh
    } else {
        call_ensures(blend, (ramp(i, chunk_len), carried, fresh), out)
    }
}

/// `out` is the crossfade of `previous_tail` into `current`: sample `i` is
/// blended with weight `ramp(i, len)`.
pub open spec fn crossfaded<T, F: Fn(Weight, T, T) -> T>(
    blend: F,
    previous_tail: Seq<T>,
    current: Seq<T>,
    out: Seq<T>,
) -> bool {
    &&& out.len() == current.len()
    &&& previous_tail.len() == current.len()
    &&& forall|i: int|
        0 <= i < out.len() ==> blended(
            blend,
            i,
            out.len() as int,
            previous_tail[i],
            current[i],
            #[trigger] out[i],
        )
}

/// Crossfades the tail carried over from the previous block into the fresh
/// segment. `blend` is asked only for weights strictly between zero and one.
pub fn crossfade<T: Copy, F: Fn(Weight, T, T) -> T>(
    previous_tail: &[T],
    current: &[T],
    blend: &F,
) -> (out: Vec<T>)
    requires
        previous_tail@.len() == current@.len(),
        forall|w: Weight, a: T, b: T| w.wf() ==> call_requires(*blend, (w, a, b)),
    ensures
        crossfaded(*blend, previous_tail@, current@, out@),
{
    let n = current.len();
    let mut out: Vec<T> = Vec::with_capacity(n);
    let mut i: usize = 0;
    while i < n
        invariant
            i <= n,
            n == current@.len(),
            n == previous_tail@.len(),
            out@.len() == i,
            forall|w: Weight, a: T, b: T| w.wf() ==> call_requires(*blend, (w, a, b)),
            forall|j: int|
                0 <= j < i ==> blended(
                    *blend,
                    j,
                    n as int,
                    previous_tail@[j],
                    current@[j],
                    #[trigger] out@[j],
                ),
        decreases n - i,
    {
        let w = ramp_weight(i, n);
        let v = if w.num == 0 {
            previous_tail[i]
        } else if w.num == w.den {
            current[i]
        } else {
            blend(w, previous_tail[i], current[i])
        };
        out.push(v);
        i += 1;
    }
    out
}

/// The crossfade starts on the carried tail and has arrived at the fresh
/// segment from the saturation index on. Where the block length is a
/// multiple of `RAMP_RATE`, the saturation index is `len / RAMP_RATE`.
pub proof fn lemma_crossfade_boundary<T, F: Fn(Weight, T, T) -> T>(
    blend: F,
    previous_tail: Seq<T>,
    current: Seq<T>,
    out: Seq<T>,
)
    requires
        crossfaded(blend, previous_tail, current, out),
        out.len() > 0,
    ensures
        out[0] == previous_tail[0],
        forall|i: int| saturation(out.len() as int) <= i < out.len() ==> out[i] == current[i],
        (out.len() as int) % (RAMP_RATE as int) == 0 ==> {
            let at = (out.len() as int) / (RAMP_RATE as int);
            saturation(out.len() as int) == at && out[at] == current[at]
        },
{
    let n = out.len() as int;
    assert(ramp_num(0, n) == 0);
    assert forall|i: int| saturation(n) <= i < n implies out[i] == current[i] by {
        assert(ramp_num(i, n) == n);
    }
}

} // verus!
