//! The block-by-block processor: history of both channels, the morph of the
//! whole window, and the crossfade that hides the seam between blocks.
//!
//! The morph itself and the arithmetic of blending are handed in by the
//! caller; the processor decides which samples they see and where their
//! results go.

use crate::blend::{
    crossfade, crossfaded, lemma_crossfade_boundary, saturation, Weight, RAMP_RATE,
};
use crate::layout::{
    current_start, fits, lemma_segments_in_window, segment_starts, tail_start,
    DEFAULT_WINDOW_SIZE,
};
use crate::util::lerpable::{lerp_each, lerped, Lerpable};
use crate::util::ring_buffer::{lemma_rotated_by_zero, RingBuffer};
use vstd::prelude::*;
use vstd::slice::{slice_subrange, slice_to_vec};

verus! {

/// A history after `chunk` has arrived: the oldest `chunk.len()` samples are
/// gone, the rest has moved up, and `chunk` stands at the end.
pub open spec fn pushed<T>(history: Seq<T>, chunk: Seq<T>) -> Seq<T> {
    history.subrange(chunk.len() as int, history.len() as int) + chunk
}

/// A history after each of `chunks` has arrived, in order.
pub open spec fn pushed_all<T>(history: Seq<T>, chunks: Seq<Seq<T>>) -> Seq<T>
    decreases chunks.len(),
{
    if chunks.len() == 0 {
        history
    } else {
        pushed(pushed_all(history, chunks.drop_last()), chunks.last())
    }
}

/// All of `chunks`, one after the other.
pub open spec fn joined<T>(chunks: Seq<Seq<T>>) -> Seq<T>
    decreases chunks.len(),
{
    if chunks.len() == 0 {
        Seq::empty()
    } else {
        joined(chunks.drop_last()) + chunks.last()
    }
}

/// A history keeps its length, whatever blocks arrive, as long as each is
/// shorter than the history.
pub proof fn lemma_history_length<T>(history: Seq<T>, chunks: Seq<Seq<T>>)
    requires
        forall|i: int| 0 <= i < chunks.len() ==> (#[trigger] chunks[i]).len() < history.len(),
    ensures
        pushed_all(history, chunks).len() == history.len(),
    decreases chunks.len(),
{
    if chunks.len() > 0 {
        lemma_history_length(history, chunks.drop_last());
    }
}

/// After any run of blocks, each shorter than the history and of whatever
/// lengths, the history has its old length and holds the most recent
/// samples: the last that many of the old history followed by all blocks,
/// oldest first, newest last.
pub proof fn lemma_history_holds_latest<T>(history: Seq<T>, chunks: Seq<Seq<T>>)
    requires
        forall|i: int| 0 <= i < chunks.len() ==> (#[trigger] chunks[i]).len() < history.len(),
    ensures
        pushed_all(history, chunks).len() == history.len(),
        pushed_all(history, chunks) == (history + joined(chunks)).subrange(
            joined(chunks).len() as int,
            (joined(chunks).len() + history.len()) as int,
        ),
    decreases chunks.len(),
{
    if chunks.len() == 0 {
        assert(history =~= (history + joined(chunks)).subrange(0, history.len() as int));
    } else {
        let earlier = chunks.drop_last();
        lemma_history_holds_latest(history, earlier);
        let so_far = joined(earlier);
        let all = joined(chunks);
        assert(history + all =~= (history + so_far) + chunks.last());
        assert(pushed(pushed_all(history, earlier), chunks.last()) =~= (history + all).subrange(
            all.len() as int,
            (all.len() + history.len()) as int,
        ));
    }
}

/// The samples that lie in the "tail" sub-range of a history lie in its
/// "current" sub-range once one more block of the same length has arrived:
/// the history has moved up by exactly one block in between.
pub proof fn lemma_tail_becomes_current<T>(history: Seq<T>, chunk: Seq<T>)
    requires
        fits(history.len() as int, chunk.len() as int),
    ensures
        pushed(history, chunk).len() == history.len(),
        pushed(history, chunk).subrange(
            current_start(history.len() as int, chunk.len() as int),
            current_start(history.len() as int, chunk.len() as int) + chunk.len(),
        ) == history.subrange(
            tail_start(history.len() as int, chunk.len() as int),
            tail_start(history.len() as int, chunk.len() as int) + chunk.len(),
        ),
{
    let w = history.len() as int;
    let n = chunk.len() as int;
    assert(pushed(history, chunk).subrange(current_start(w, n), current_start(w, n) + n)
        =~= history.subrange(tail_start(w, n), tail_start(w, n) + n));
}

/// The tail that a block of `chunk_len` samples is crossfaded from: the one
/// saved by the previous block if that had the same length, silence
/// otherwise.
pub open spec fn carried<T>(tail: Seq<T>, chunk_len: nat, silence: T) -> Seq<T> {
    if tail.len() == chunk_len {
        tail
    } else {
        Seq::new(chunk_len, |i: int| silence)
    }
}

/// What one direction of a block leaves behind: `out` is the crossfade of the
/// carried tail into the "current" sub-range of `segment`, and `saved` is the
/// "tail" sub-range of `segment`.
pub open spec fn continued<T, F: Fn(Weight, T, T) -> T>(
    blend: F,
    tail: Seq<T>,
    segment: Seq<T>,
    out: Seq<T>,
    saved: Seq<T>,
) -> bool {
    let n = tail.len() as int;
    let w = segment.len() as int;
    &&& crossfaded(
        blend,
        tail,
        segment.subrange(current_start(w, n), current_start(w, n) + n),
        out,
    )
    &&& saved == segment.subrange(tail_start(w, n), tail_start(w, n) + n)
}

/// A block's output starts on the first sample of the tail that the previous
/// block saved, and from the saturation index of the ramp on it is the
/// "current" sub-range of the morphed window, sample for sample. Where the
/// block length is a multiple of `RAMP_RATE`, that index is
/// `len / RAMP_RATE`.
pub proof fn lemma_block_boundary<T, F: Fn(Weight, T, T) -> T>(
    blend: F,
    tail: Seq<T>,
    segment: Seq<T>,
    out: Seq<T>,
    saved: Seq<T>,
)
    requires
        continued(blend, tail, segment, out, saved),
        fits(segment.len() as int, tail.len() as int),
        tail.len() > 0,
    ensures
        out.len() == tail.len(),
        saved.len() == tail.len(),
        out[0] == tail[0],
        forall|i: int|
            saturation(out.len() as int) <= i < out.len() ==> #[trigger] out[i] == segment[current_start(
                segment.len() as int,
                out.len() as int,
            ) + i],
        forall|i: int|
            0 <= i < saved.len() ==> #[trigger] saved[i] == segment[tail_start(
                segment.len() as int,
                out.len() as int,
            ) + i],
        (out.len() as int) % (RAMP_RATE as int) == 0 ==> saturation(out.len() as int) == (
        out.len() as int) / (RAMP_RATE as int),
{
    let n = tail.len() as int;
    let w = segment.len() as int;
    lemma_segments_in_window(w, n);
    let current = segment.subrange(current_start(w, n), current_start(w, n) + n);
    lemma_crossfade_boundary(blend, tail, current, out);
}

/// One direction of a block: crossfades `tail` into the "current" sub-range
/// of `segment` and replaces `tail` by the "tail" sub-range.
fn advance<T: Copy, F: Fn(Weight, T, T) -> T>(tail: &mut Vec<T>, segment: &[T], blend: &F) -> (out:
    Vec<T>)
    requires
        fits(segment@.len() as int, old(tail)@.len() as int),
        forall|w: Weight, a: T, b: T| w.wf() ==> call_requires(*blend, (w, a, b)),
    ensures
        continued(*blend, old(tail)@, segment@, out@, final(tail)@),
{
    let n = tail.len();
    match segment_starts(segment.len(), n) {
        Some((current_at, tail_at)) => {
            let current = slice_subrange(segment, current_at, current_at + n);
            let out = crossfade(tail.as_slice(), current, blend);
            *tail = slice_to_vec(slice_subrange(segment, tail_at, tail_at + n));
            out
        },
        // the block fits, so there are always two sub-ranges to take
        None => Vec::new(),
    }
}

/// `n` copies of `value`.
fn fill<T: Copy>(n: usize, value: T) -> (v: Vec<T>)
    ensures
        v@ == Seq::new(n as nat, |i: int| value),
{
    let mut v: Vec<T> = Vec::with_capacity(n);
    let mut i: usize = 0;
    while i < n
        invariant
            i <= n,
            v@ == Seq::new(i as nat, |j: int| value),
        decreases n - i,
    {
        v.push(value);
        assert(v@ =~= Seq::new((i + 1) as nat, |j: int| value));
        i += 1;
    }
    v
}

/// Appends `chunk` to a history, dropping as many of its oldest samples.
fn put_inputs<T: Copy>(history: &mut RingBuffer<T>, chunk: &[T])
    requires
        chunk@.len() < old(history)@.len(),
    ensures
        final(history)@ == pushed(old(history)@, chunk@),
{
    let ghost before = history@;
    let n = chunk.len();
    let mut k: usize = 0;
    while k < n
        invariant
            k <= n,
            n == chunk@.len(),
            n < before.len(),
            history@ == before.subrange(k as int, before.len() as int) + chunk@.subrange(
                0,
                k as int,
            ),
        decreases n - k,
    {
        history.push_pop(chunk[k]);
        assert(history@ =~= before.subrange(k + 1, before.len() as int) + chunk@.subrange(
            0,
            k + 1,
        ));
        k += 1;
    }
    assert(chunk@.subrange(0, n as int) =~= chunk@);
}

/// The contents of a history, oldest sample first.
fn take_input<T: Copy>(history: &RingBuffer<T>) -> (v: Vec<T>)
    ensures
        v@ == history@,
{
    if history.len() == 0 {
        let v: Vec<T> = Vec::new();
        assert(v@ =~= history@);
        return v;
    }
    let (lower, upper) = history.slice_raw(0, 0);
    proof {
        history.lemma_raw_parts_logical(0, 0);
        lemma_rotated_by_zero(history@);
        assert(history@.subrange(0, history@.len() as int) =~= history@);
    }
    let mut v = slice_to_vec(lower);
    let mut i: usize = 0;
    while i < upper.len()
        invariant
            i <= upper@.len(),
            v@ == lower@ + upper@.subrange(0, i as int),
        decreases upper@.len() - i,
    {
        v.push(upper[i]);
        assert(v@ =~= lower@ + upper@.subrange(0, i + 1));
        i += 1;
    }
    assert(upper@.subrange(0, upper@.len() as int) =~= upper@);
    v
}

/// Overwrites `target` with `source`.
fn write_output<T: Copy>(target: &mut [T], source: &Vec<T>)
    requires
        old(target)@.len() == source@.len(),
    ensures
        final(target)@ == source@,
{
    let n = source.len();
    let mut i: usize = 0;
    while i < n
        invariant
            i <= n,
            n == source@.len(),
            target@.len() == n,
            forall|j: int| 0 <= j < i ==> #[trigger] target@[j] == source@[j],
        decreases n - i,
    {
        target[i] = source[i];
        i += 1;
    }
    assert(target@ =~= source@);
}

/// The state that one channel pair carries from block to block.
pub struct Processor<T> {
    history_a: RingBuffer<T>,
    history_b: RingBuffer<T>,
    tail_ab: Vec<T>,
    tail_ba: Vec<T>,
    silence: T,
}

impl<T: Copy> Processor<T> {
    /// The most recent samples of channel A, oldest first.
    pub closed spec fn history_a(&self) -> Seq<T> {
        self.history_a@
    }

    /// The most recent samples of channel B, oldest first.
    pub closed spec fn history_b(&self) -> Seq<T> {
        self.history_b@
    }

    /// The tail saved by the previous block for the A-leaning direction.
    pub closed spec fn tail_ab(&self) -> Seq<T> {
        self.tail_ab@
    }

    /// The tail saved by the previous block for the B-leaning direction.
    pub closed spec fn tail_ba(&self) -> Seq<T> {
        self.tail_ba@
    }

    /// The sample value that stands for silence.
    pub closed spec fn silence(&self) -> T {
        self.silence
    }

    /// The window length: how many samples of each channel are kept.
    pub open spec fn window(&self) -> nat {
        self.history_a().len()
    }

    /// Both histories have the window length and both tails the same length.
    pub open spec fn wf(&self) -> bool {
        &&& self.history_b().len() == self.history_a().len()
        &&& self.tail_ba().len() == self.tail_ab().len()
    }

    /// A processor with a window of `DEFAULT_WINDOW_SIZE` samples, its
    /// histories silent.
    pub fn new(silence: T) -> (r: Self)
        ensures
            r.wf(),
            r.window() == DEFAULT_WINDOW_SIZE,
            r.history_a() == Seq::new(DEFAULT_WINDOW_SIZE as nat, |i: int| silence),
            r.history_b() == Seq::new(DEFAULT_WINDOW_SIZE as nat, |i: int| silence),
            r.tail_ab().len() == 0,
            r.silence() == silence,
    {
        Self::with_window(DEFAULT_WINDOW_SIZE, silence)
    }

    /// A processor with a window of `window` samples, its histories silent.
    pub fn with_window(window: usize, silence: T) -> (r: Self)
        ensures
            r.wf(),
            r.window() == window,
            r.history_a() == Seq::new(window as nat, |i: int| silence),
            r.history_b() == Seq::new(window as nat, |i: int| silence),
            r.tail_ab().len() == 0,
            r.silence() == silence,
    {
        Self {
            history_a: RingBuffer::from_vec(fill(window, silence)),
            history_b: RingBuffer::from_vec(fill(window, silence)),
            tail_ab: Vec::new(),
            tail_ba: Vec::new(),
            silence,
        }
    }

    /// The window length.
    pub fn window_size(&self) -> (w: usize)
        ensures
            w == self.window(),
    {
        self.history_a.len()
    }

    /// Takes in one block of both channels: each history drops its oldest
    /// samples and appends the block, and the saved tails are replaced by
    /// silence if the block length differs from that of the previous block.
    pub fn accept(&mut self, ch_a: &[T], ch_b: &[T])
        requires
            old(self).wf(),
            ch_a@.len() == ch_b@.len(),
            ch_a@.len() < old(self).window(),
        ensures
            final(self).wf(),
            final(self).silence() == old(self).silence(),
            final(self).history_a() == pushed(old(self).history_a(), ch_a@),
            final(self).history_b() == pushed(old(self).history_b(), ch_b@),
            final(self).window() == old(self).window(),
            final(self).tail_ab() == carried(old(self).tail_ab(), ch_a@.len(), old(self).silence()),
            final(self).tail_ba() == carried(old(self).tail_ba(), ch_a@.len(), old(self).silence()),
    {
        let n = ch_a.len();
        if self.tail_ab.len() != n {
            self.tail_ab = fill(n, self.silence);
            self.tail_ba = fill(n, self.silence);
        }
        put_inputs(&mut self.history_a, ch_a);
        put_inputs(&mut self.history_b, ch_b);
    }

    /// Copies of both histories, oldest sample first: the two windows to
    /// morph.
    pub fn windows(&self) -> (r: (Vec<T>, Vec<T>))
        ensures
            r.0@ == self.history_a(),
            r.1@ == self.history_b(),
    {
        (take_input(&self.history_a), take_input(&self.history_b))
    }

    /// Turns the morphed window of the block just taken in into that block's
    /// output: the crossfade of the saved tail into the "current" sub-range.
    /// The "tail" sub-range is saved for the next block.
    pub fn emit<F: Fn(Weight, T, T) -> T>(&mut self, segment: &[T], blend: &F) -> (out: Vec<T>)
        requires
            old(self).wf(),
            segment@.len() == old(self).window(),
            fits(old(self).window() as int, old(self).tail_ab().len() as int),
            forall|w: Weight, a: T, b: T| w.wf() ==> call_requires(*blend, (w, a, b)),
        ensures
            final(self).wf(),
            final(self).silence() == old(self).silence(),
            final(self).history_a() == old(self).history_a(),
            final(self).history_b() == old(self).history_b(),
            final(self).tail_ba() == old(self).tail_ba(),
            continued(*blend, old(self).tail_ab(), segment@, out@, final(self).tail_ab()),
    {
        advance(&mut self.tail_ab, segment, blend)
    }

    /// What `emit_2x` leaves behind: both directions are continued, each from
    /// its own tail, and `out` interpolates between their outputs sample by
    /// sample with the weights `fade`.
    pub open spec fn emitted_2x<W: Lerpable<T>, F: Fn(Weight, T, T) -> T>(
        blend: F,
        fade: Seq<W>,
        tail_ab: Seq<T>,
        tail_ba: Seq<T>,
        segment_ab: Seq<T>,
        segment_ba: Seq<T>,
        out: Seq<T>,
        saved_ab: Seq<T>,
        saved_ba: Seq<T>,
    ) -> bool {
        exists|ab: Seq<T>, ba: Seq<T>|
            {
                &&& continued(blend, tail_ab, segment_ab, ab, saved_ab)
                &&& continued(blend, tail_ba, segment_ba, ba, saved_ba)
                &&& #[trigger] lerped(fade, ab, ba, out)
            }
    }

    /// The two-direction form of `emit`: each morphed window is turned into
    /// an output as `emit` does, from its own saved tail, and the two outputs
    /// are interpolated sample by sample, from the A-leaning one at weight
    /// zero to the B-leaning one at weight one.
    pub fn emit_2x<W: Lerpable<T>, F: Fn(Weight, T, T) -> T>(
        &mut self,
        segment_ab: &[T],
        segment_ba: &[T],
        fade: &[W],
        blend: &F,
    ) -> (out: Vec<T>)
        requires
            old(self).wf(),
            segment_ab@.len() == old(self).window(),
            segment_ba@.len() == old(self).window(),
            fade@.len() == old(self).tail_ab().len(),
            fits(old(self).window() as int, old(self).tail_ab().len() as int),
            forall|w: Weight, a: T, b: T| w.wf() ==> call_requires(*blend, (w, a, b)),
        ensures
            final(self).wf(),
            final(self).silence() == old(self).silence(),
            final(self).history_a() == old(self).history_a(),
            final(self).history_b() == old(self).history_b(),
            Self::emitted_2x(
                *blend,
                fade@,
                old(self).tail_ab(),
                old(self).tail_ba(),
                segment_ab@,
                segment_ba@,
                out@,
                final(self).tail_ab(),
                final(self).tail_ba(),
            ),
    {
        let ab = advance(&mut self.tail_ab, segment_ab, blend);
        let ba = advance(&mut self.tail_ba, segment_ba, blend);
        let out = lerp_each(fade, ab.as_slice(), ba.as_slice());
        assert(lerped(fade@, ab@, ba@, out@));
        out
    }

    /// What `process` leaves behind, given the state after the block has been
    /// taken in: `morph` was given the two histories and returned a window
    /// that `emit` turned into `out`.
    pub open spec fn processed<M: FnOnce(Vec<T>, Vec<T>) -> Vec<T>, F: Fn(Weight, T, T) -> T>(
        morph: M,
        blend: F,
        history_a: Seq<T>,
        history_b: Seq<T>,
        tail: Seq<T>,
        out: Seq<T>,
        saved: Seq<T>,
    ) -> bool {
        exists|a: Vec<T>, b: Vec<T>, segment: Vec<T>|
            {
                &&& a@ == history_a
                &&& b@ == history_b
                &&& #[trigger] call_ensures(morph, (a, b), segment)
                &&& continued(blend, tail, segment@, out, saved)
            }
    }

    /// Processes one block in place. The block of both channels is taken in,
    /// `morph` turns the two histories into one window of the same length,
    /// and the block's output, crossfaded from the tail that the previous
    /// block saved, replaces the samples of `ch_a`.
    pub fn process<M: FnOnce(Vec<T>, Vec<T>) -> Vec<T>, F: Fn(Weight, T, T) -> T>(
        &mut self,
        ch_a: &mut [T],
        ch_b: &[T],
        morph: M,
        blend: &F,
    )
        requires
            old(self).wf(),
            old(ch_a)@.len() == ch_b@.len(),
            fits(old(self).window() as int, ch_b@.len() as int),
            forall|a: Vec<T>, b: Vec<T>|
                a@.len() == old(self).window() && b@.len() == old(self).window() ==> call_requires(
                    morph,
                    (a, b),
                ),
            forall|a: Vec<T>, b: Vec<T>, segment: Vec<T>|
                a@.len() == old(self).window() && b@.len() == old(self).window() && call_ensures(
                    morph,
                    (a, b),
                    segment,
                ) ==> segment@.len() == old(self).window(),
            forall|w: Weight, a: T, b: T| w.wf() ==> call_requires(*blend, (w, a, b)),
        ensures
            final(self).wf(),
            final(self).silence() == old(self).silence(),
            final(self).window() == old(self).window(),
            final(self).history_a() == pushed(old(self).history_a(), old(ch_a)@),
            final(self).history_b() == pushed(old(self).history_b(), ch_b@),
            final(self).tail_ba() == carried(old(self).tail_ba(), ch_b@.len(), old(self).silence()),
            Self::processed(
                morph,
                *blend,
                final(self).history_a(),
                final(self).history_b(),
                carried(old(self).tail_ab(), ch_b@.len(), old(self).silence()),
                final(ch_a)@,
                final(self).tail_ab(),
            ),
    {
        self.accept(ch_a, ch_b);
        let (a, b) = self.windows();
        let ghost given = (a, b);
        let segment = morph(a, b);
        assert(call_ensures(morph, given, segment));
        let out = self.emit(segment.as_slice(), blend);
        write_output(ch_a, &out);
    }

    /// What `process_2x` leaves behind, given the state after the block has
    /// been taken in: `morph` was given the two histories and returned two
    /// windows that `emit_2x` turned into `out`.
    pub open spec fn processed_2x<
        W: Lerpable<T>,
        M: FnOnce(Vec<T>, Vec<T>) -> (Vec<T>, Vec<T>),
        F: Fn(Weight, T, T) -> T,
    >(
        morph: M,
        blend: F,
        fade: Seq<W>,
        history_a: Seq<T>,
        history_b: Seq<T>,
        tail_ab: Seq<T>,
        tail_ba: Seq<T>,
        out: Seq<T>,
        saved_ab: Seq<T>,
        saved_ba: Seq<T>,
    ) -> bool {
        exists|a: Vec<T>, b: Vec<T>, segments: (Vec<T>, Vec<T>)|
            {
                &&& a@ == history_a
                &&& b@ == history_b
                &&& #[trigger] call_ensures(morph, (a, b), segments)
                &&& Self::emitted_2x(
                    blend,
                    fade,
                    tail_ab,
                    tail_ba,
                    segments.0@,
                    segments.1@,
                    out,
                    saved_ab,
                    saved_ba,
                )
            }
    }

    /// Processes one block in place in both directions. `morph` turns the
    /// two histories into an A-leaning and a B-leaning window; each is
    /// crossfaded from its own saved tail, and `fade` interpolates between
    /// the two outputs sample by sample.
    pub fn process_2x<
        W: Lerpable<T>,
        M: FnOnce(Vec<T>, Vec<T>) -> (Vec<T>, Vec<T>),
        F: Fn(Weight, T, T) -> T,
    >(&mut self, ch_a: &mut [T], ch_b: &[T], fade: &[W], morph: M, blend: &F)
        requires
            old(self).wf(),
            old(ch_a)@.len() == ch_b@.len(),
            fade@.len() == ch_b@.len(),
            fits(old(self).window() as int, ch_b@.len() as int),
            forall|a: Vec<T>, b: Vec<T>|
                a@.len() == old(self).window() && b@.len() == old(self).window() ==> call_requires(
                    morph,
                    (a, b),
                ),
            forall|a: Vec<T>, b: Vec<T>, segments: (Vec<T>, Vec<T>)|
                a@.len() == old(self).window() && b@.len() == old(self).window() && call_ensures(
                    morph,
                    (a, b),
                    segments,
                ) ==> segments.0@.len() == old(self).window() && segments.1@.len() == old(
                    self,
                ).window(),
            forall|w: Weight, a: T, b: T| w.wf() ==> call_requires(*blend, (w, a, b)),
        ensures
            final(self).wf(),
            final(self).silence() == old(self).silence(),
            final(self).window() == old(self).window(),
            final(self).history_a() == pushed(old(self).history_a(), old(ch_a)@),
            final(self).history_b() == pushed(old(self).history_b(), ch_b@),
            Self::processed_2x(
                morph,
                *blend,
                fade@,
                final(self).history_a(),
                final(self).history_b(),
                carried(old(self).tail_ab(), ch_b@.len(), old(self).silence()),
                carried(old(self).tail_ba(), ch_b@.len(), old(self).silence()),
                final(ch_a)@,
                final(self).tail_ab(),
                final(self).tail_ba(),
            ),
    {
        self.accept(ch_a, ch_b);
        let (a, b) = self.windows();
        let ghost given = (a, b);
        let segments = morph(a, b);
        assert(call_ensures(morph, given, segments));
        let out = self.emit_2x(segments.0.as_slice(), segments.1.as_slice(), fade, blend);
        write_output(ch_a, &out);
    }
}

} // verus!
