//! A fixed-length ring of values addressed by signed logical indices.

use vstd::prelude::*;
use vstd::arithmetic::div_mod::{
    lemma_add_mod_noop, lemma_fundamental_div_mod, lemma_fundamental_div_mod_converse,
    lemma_mod_bound, lemma_mod_self_0, lemma_mod_twice, lemma_small_mod,
};

verus! {

/// Fixed-length buffer whose logical index 0 rotates over its storage.
///
/// The storage never changes length. Logical index `i` (any integer, taken
/// modulo the length) lives at storage position `resolve(i)`.
pub struct RingBuffer<T> {
    data: Vec<T>,
    zero_offset: usize,
}

/// The sequence `s` read cyclically from position `i` on: element `j` of the
/// result is element `(j + i) mod len` of `s`.
pub open spec fn rotated<T>(s: Seq<T>, i: int) -> Seq<T> {
    Seq::new(s.len(), |j: int| s[(j + i) % (s.len() as int)])
}

/// Reading a sequence cyclically from its own start gives it back.
pub proof fn lemma_rotated_by_zero<T>(s: Seq<T>)
    ensures
        rotated(s, 0) == s,
{
    assert forall|j: int| 0 <= j < s.len() implies #[trigger] rotated(s, 0)[j] == s[j] by {
        lemma_small_mod(j as nat, s.len());
    }
    assert(rotated(s, 0) =~= s);
}

/// Element `j` of a rotated sequence.
pub proof fn lemma_rotated_index<T>(s: Seq<T>, i: int, j: int)
    requires
        0 <= j < s.len(),
    ensures
        rotated(s, i).len() == s.len(),
        rotated(s, i)[j] == s[(j + i) % (s.len() as int)],
        0 <= (j + i) % (s.len() as int) < s.len(),
{
    lemma_mod_bound(j + i, s.len() as int);
}

/// Rotating by `i` and then by `k` is rotating by `k + i`.
pub proof fn lemma_rotated_twice<T>(s: Seq<T>, i: int, k: int)
    ensures
        rotated(rotated(s, i), k) == rotated(s, k + i),
{
    let n = s.len() as int;
    assert forall|j: int| 0 <= j < n implies #[trigger] rotated(rotated(s, i), k)[j] == rotated(
        s,
        k + i,
    )[j] by {
        lemma_mod_bound(j + k, n);
        lemma_add_mod_noop(j + k, i, n);
        lemma_mod_twice(j + k, n);
        lemma_add_mod_noop((j + k) % n, i, n);
    }
    assert(rotated(rotated(s, i), k) =~= rotated(s, k + i));
}

/// Only the remainder of a rotation by the length matters.
pub proof fn lemma_rotated_mod<T>(s: Seq<T>, i: int)
    requires
        s.len() > 0,
    ensures
        rotated(s, i % (s.len() as int)) == rotated(s, i),
{
    let n = s.len() as int;
    assert forall|j: int| 0 <= j < n implies #[trigger] rotated(s, i % n)[j] == rotated(s, i)[j] by {
        lemma_add_mod_noop(j, i, n);
        lemma_mod_twice(i, n);
        lemma_add_mod_noop(j, i % n, n);
    }
    assert(rotated(s, i % n) =~= rotated(s, i));
}

/// Within one turn of the ring, distinct logical indices live at distinct
/// storage positions.
pub proof fn lemma_wrap_injective(origin: int, len: int, j: int, k: int)
    requires
        0 <= j < len,
        0 <= k < len,
        (j + origin) % len == (k + origin) % len,
    ensures
        j == k,
{
    lemma_fundamental_div_mod(j + origin, len);
    lemma_fundamental_div_mod(k + origin, len);
    let qj = (j + origin) / len;
    let qk = (k + origin) / len;
    assert(j - k == len * (qj - qk)) by (nonlinear_arith)
        requires
            j + origin == len * qj + (j + origin) % len,
            k + origin == len * qk + (k + origin) % len,
            (j + origin) % len == (k + origin) % len,
    ;
    assert(qj - qk == 0) by (nonlinear_arith)
        requires
            j - k == len * (qj - qk),
            -len < j - k < len,
            len > 0,
    ;
}

/// Writing at the storage position of logical index `k` changes logical
/// index `k` and nothing else.
pub proof fn lemma_rotated_update<T>(s: Seq<T>, origin: int, k: int, value: T)
    requires
        0 <= k < s.len(),
    ensures
        0 <= (k + origin) % (s.len() as int) < s.len(),
        rotated(s.update((k + origin) % (s.len() as int), value), origin) == rotated(
            s,
            origin,
        ).update(k, value),
{
    let n = s.len() as int;
    let at = (k + origin) % n;
    lemma_mod_bound(k + origin, n);
    assert forall|j: int| 0 <= j < n implies #[trigger] rotated(s.update(at, value), origin)[j]
        == rotated(s, origin).update(k, value)[j] by {
        lemma_mod_bound(j + origin, n);
        if j != k && (j + origin) % n == at {
            lemma_wrap_injective(origin, n, j, k);
        }
    }
    assert(rotated(s.update(at, value), origin) =~= rotated(s, origin).update(k, value));
}

/// Euclidean remainder of a signed index by a positive length.
fn wrap_index(i: isize, len: usize) -> (r: usize)
    requires
        len > 0,
    ensures
        r as int == (i as int) % (len as int),
        r < len,
{
    if i >= 0 {
        (i as usize) % len
    } else {
        // i = -(k + 1) with k >= 0, so i mod len = len - 1 - (k mod len).
        let k: usize = (-(i + 1)) as usize;
        let m: usize = k % len;
        proof {
            let q = (k as int) / (len as int);
            lemma_fundamental_div_mod(k as int, len as int);
            assert((i as int) == (-(q + 1)) * (len as int) + (len - 1 - m)) by (nonlinear_arith)
                requires
                    k as int == (len as int) * q + (m as int),
                    i as int == -(k as int) - 1,
            ;
            lemma_fundamental_div_mod_converse(
                i as int,
                len as int,
                -(q + 1),
                (len - 1 - m) as int,
            );
        }
        len - 1 - m
    }
}

impl<T> View for RingBuffer<T> {
    type V = Seq<T>;

    /// The contents in logical order: index 0 first.
    open spec fn view(&self) -> Seq<T> {
        rotated(self.storage(), self.origin())
    }
}

impl<T> RingBuffer<T> {
    /// The contents in storage order.
    pub closed spec fn storage(&self) -> Seq<T> {
        self.data@
    }

    /// How far the ring has been turned: logical index 0 lives at storage
    /// position `origin() mod len`.
    pub closed spec fn origin(&self) -> int {
        self.zero_offset as int
    }

    /// Storage position of logical index `i`.
    pub open spec fn resolve(&self, i: int) -> int {
        (i + self.origin()) % (self.storage().len() as int)
    }

    /// The two storage runs that hold the logical range from `from_i` up to
    /// `to_i`, in logical order. When both ends fall on the same storage
    /// position the range is the whole ring, not the empty one.
    pub open spec fn raw_parts(&self, from_i: int, to_i: int) -> (Seq<T>, Seq<T>) {
        let f = self.resolve(from_i);
        let t = self.resolve(to_i);
        if f >= t {
            (self.storage().subrange(f, self.storage().len() as int), self.storage().subrange(0, t))
        } else {
            (self.storage().subrange(f, t), Seq::empty())
        }
    }

    /// The storage after the two runs of `raw_parts(from_i, to_i)` have been
    /// overwritten with `first` and `second`.
    pub open spec fn storage_with_parts(
        &self,
        from_i: int,
        to_i: int,
        first: Seq<T>,
        second: Seq<T>,
    ) -> Seq<T> {
        let f = self.resolve(from_i);
        let t = self.resolve(to_i);
        if f >= t {
            second + self.storage().subrange(t, f) + first
        } else {
            self.storage().subrange(0, f) + first + second + self.storage().subrange(
                t,
                self.storage().len() as int,
            )
        }
    }

    /// Number of elements in the logical range from `from_i` up to `to_i`:
    /// between 1 and the length, the whole ring when both ends coincide.
    pub open spec fn span(&self, from_i: int, to_i: int) -> int {
        let f = self.resolve(from_i);
        let t = self.resolve(to_i);
        if f >= t {
            self.storage().len() - f + t
        } else {
            t - f
        }
    }

    /// Where the logical range from `from_i` up to `to_i` is cut in two: the
    /// number of its elements that lie before the end of the storage.
    pub open spec fn cut(&self, from_i: int, to_i: int) -> int {
        let f = self.resolve(from_i);
        let t = self.resolve(to_i);
        if f >= t {
            self.storage().len() - f
        } else {
            t - f
        }
    }

    /// The two runs of `raw_parts` in terms of the view: read from `from_i`
    /// on, wrapping at the end, the logical contents give `span` elements, of
    /// which the first `cut` are the first run and the rest the second.
    pub proof fn lemma_raw_parts_logical(&self, from_i: int, to_i: int)
        requires
            self@.len() > 0,
        ensures
            0 < self.span(from_i, to_i) <= self@.len(),
            0 < self.cut(from_i, to_i) <= self.span(from_i, to_i),
            self.raw_parts(from_i, to_i).0 == rotated(self@, from_i).subrange(
                0,
                self.cut(from_i, to_i),
            ),
            self.raw_parts(from_i, to_i).1 == rotated(self@, from_i).subrange(
                self.cut(from_i, to_i),
                self.span(from_i, to_i),
            ),
            self.raw_parts(from_i, to_i).0 + self.raw_parts(from_i, to_i).1 == rotated(
                self@,
                from_i,
            ).subrange(0, self.span(from_i, to_i)),
    {
        let n = self.storage().len() as int;
        let f = self.resolve(from_i);
        let t = self.resolve(to_i);
        lemma_mod_bound(from_i + self.origin(), n);
        lemma_mod_bound(to_i + self.origin(), n);
        let first = self.raw_parts(from_i, to_i).0;
        let second = self.raw_parts(from_i, to_i).1;
        let logical = rotated(self@, from_i).subrange(0, self.span(from_i, to_i));
        lemma_rotated_twice(self.storage(), self.origin(), from_i);
        assert forall|k: int| 0 <= k < self.span(from_i, to_i) implies #[trigger] (first
            + second)[k] == logical[k] by {
            lemma_rotated_index(self.storage(), from_i + self.origin(), k);
            lemma_add_mod_noop(k, from_i + self.origin(), n);
            lemma_small_mod(k as nat, n as nat);
            if k + f < n {
                lemma_small_mod((k + f) as nat, n as nat);
            } else {
                lemma_fundamental_div_mod_converse(k + f, n, 1, k + f - n);
            }
        }
        assert(first + second =~= logical);
        assert(first =~= (first + second).subrange(0, self.cut(from_i, to_i)));
        assert(second =~= (first + second).subrange(
            self.cut(from_i, to_i),
            self.span(from_i, to_i),
        ));
        assert(first =~= rotated(self@, from_i).subrange(0, self.cut(from_i, to_i)));
        assert(second =~= rotated(self@, from_i).subrange(
            self.cut(from_i, to_i),
            self.span(from_i, to_i),
        ));
    }

    /// Where a logical index lives: element `j` of the view is the element at
    /// storage position `resolve(j)`. The view and the rotation together fix
    /// the storage.
    pub proof fn lemma_storage_of_view(&self, j: int)
        requires
            0 <= j < self@.len(),
        ensures
            0 <= self.resolve(j) < self.storage().len(),
            self.storage()[self.resolve(j)] == self@[j],
    {
        lemma_rotated_index(self.storage(), self.origin(), j);
    }

    /// Wraps a vector; its first element becomes logical index 0.
    pub fn from_vec(initial: Vec<T>) -> (r: Self)
        ensures
            r@ == initial@,
            r.storage() == initial@,
            r.origin() == 0,
    {
        let r = Self { data: initial, zero_offset: 0 };
        proof {
            lemma_rotated_by_zero(initial@);
        }
        r
    }

    /// Number of elements held.
    pub fn len(&self) -> (n: usize)
        ensures
            n == self@.len(),
    {
        self.data.len()
    }

    /// Storage position of the logical index `k`, for `k` within one turn.
    fn position(&self, k: usize) -> (r: usize)
        requires
            k < self@.len(),
        ensures
            r as int == self.resolve(k as int),
            r < self@.len(),
    {
        let len = self.data.len();
        let b = self.zero_offset % len;
        proof {
            lemma_add_mod_noop(k as int, self.zero_offset as int, len as int);
            lemma_small_mod(k as nat, len as nat);
        }
        if k >= len - b {
            proof {
                lemma_fundamental_div_mod_converse(k + b, len as int, 1, k + b - len);
            }
            k - (len - b)
        } else {
            proof {
                lemma_small_mod((k + b) as nat, len as nat);
            }
            k + b
        }
    }

    /// Storage position of the logical index `i`, whatever its sign and size.
    fn resolve_index(&self, i: isize) -> (r: usize)
        requires
            self@.len() > 0,
        ensures
            r as int == self.resolve(i as int),
            r < self@.len(),
    {
        let within = wrap_index(i, self.data.len());
        proof {
            let n = self.data@.len() as int;
            lemma_add_mod_noop(i as int, self.origin(), n);
            lemma_add_mod_noop(within as int, self.origin(), n);
            lemma_mod_twice(i as int, n);
        }
        self.position(within)
    }

    /// Borrows the logical range from `from_i` up to `to_i` as at most two
    /// storage runs: the part up to the end of the storage, then the part
    /// that wrapped to its start. In terms of the view these are the first
    /// `cut` and the remaining elements of the contents read from `from_i`.
    pub fn slice_raw(&self, from_i: isize, to_i: isize) -> (r: (&[T], &[T]))
        requires
            self@.len() > 0,
        ensures
            r.0@ == self.raw_parts(from_i as int, to_i as int).0,
            r.1@ == self.raw_parts(from_i as int, to_i as int).1,
            r.0@ == rotated(self@, from_i as int).subrange(0, self.cut(from_i as int, to_i as int)),
            r.1@ == rotated(self@, from_i as int).subrange(
                self.cut(from_i as int, to_i as int),
                self.span(from_i as int, to_i as int),
            ),
    {
        proof {
            self.lemma_raw_parts_logical(from_i as int, to_i as int);
        }
        let from_raw_i = self.resolve_index(from_i);
        let to_raw_i = self.resolve_index(to_i);
        let whole = self.data.as_slice();
        if from_raw_i >= to_raw_i {
            let (upper, rest) = whole.split_at(to_raw_i);
            let (_, lower) = rest.split_at(from_raw_i - to_raw_i);
            assert(lower@ =~= self.storage().subrange(from_raw_i as int, self.storage().len() as int));
            (lower, upper)
        } else {
            let (head, tail) = whole.split_at(to_raw_i);
            let (_, lower) = head.split_at(from_raw_i);
            let (nothing, _) = tail.split_at(0);
            assert(lower@ =~= self.storage().subrange(from_raw_i as int, to_raw_i as int));
            assert(nothing@ =~= Seq::<T>::empty());
            (lower, nothing)
        }
    }

    /// Borrows the same two storage runs as `slice_raw`, for writing. What the
    /// caller leaves in them is what the ring holds afterwards; the rest of
    /// the storage and the rotation stay as they were.
    pub fn slice_raw_mut(&mut self, from_i: isize, to_i: isize) -> (r: (&mut [T], &mut [T]))
        requires
            old(self)@.len() > 0,
        ensures
            r.0@ == old(self).raw_parts(from_i as int, to_i as int).0,
            r.1@ == old(self).raw_parts(from_i as int, to_i as int).1,
            r.0@ == rotated(old(self)@, from_i as int).subrange(
                0,
                old(self).cut(from_i as int, to_i as int),
            ),
            r.1@ == rotated(old(self)@, from_i as int).subrange(
                old(self).cut(from_i as int, to_i as int),
                old(self).span(from_i as int, to_i as int),
            ),
            final(self).origin() == old(self).origin(),
            final(self).storage() == old(self).storage_with_parts(
                from_i as int,
                to_i as int,
                final(r.0)@,
                final(r.1)@,
            ),
    {
        proof {
            self.lemma_raw_parts_logical(from_i as int, to_i as int);
        }
        let from_raw_i = self.resolve_index(from_i);
        let to_raw_i = self.resolve_index(to_i);
        let ghost before = self.data@;
        let whole = self.data.as_mut_slice();
        if from_raw_i >= to_raw_i {
            let (upper, rest) = whole.split_at_mut(to_raw_i);
            let (skipped, lower) = rest.split_at_mut(from_raw_i - to_raw_i);
            proof {
                assert(lower@ =~= before.subrange(from_raw_i as int, before.len() as int));
                assert(skipped@ =~= before.subrange(to_raw_i as int, from_raw_i as int));
                assert(final(upper)@ + (skipped@ + final(lower)@) =~= final(upper)@ + skipped@
                    + final(lower)@);
            }
            (lower, upper)
        } else {
            let (head, tail) = whole.split_at_mut(to_raw_i);
            let (skipped, lower) = head.split_at_mut(from_raw_i);
            let (nothing, rest) = tail.split_at_mut(0);
            proof {
                assert(lower@ =~= before.subrange(from_raw_i as int, to_raw_i as int));
                assert(skipped@ =~= before.subrange(0, from_raw_i as int));
                assert(nothing@ =~= Seq::<T>::empty());
                assert(rest@ =~= before.subrange(to_raw_i as int, before.len() as int));
                let ghost written = final(lower)@;
                let ghost wrapped = final(nothing)@;
                assert((skipped@ + written) + (wrapped + rest@) =~= skipped@ + written + wrapped
                    + rest@);
            }
            (lower, nothing)
        }
    }

    /// Turns the ring by `i`: what was logical index `j` becomes logical
    /// index `j - i`. The storage is untouched.
    pub fn shift(&mut self, i: isize)
        requires
            old(self)@.len() > 0,
        ensures
            final(self).storage() == old(self).storage(),
            final(self).origin() == old(self).resolve(i as int),
            final(self)@ == rotated(old(self)@, i as int),
    {
        let ghost before = *self;
        self.zero_offset = self.resolve_index(i);
        proof {
            lemma_rotated_twice(before.storage(), before.origin(), i as int);
            lemma_rotated_mod(before.storage(), i + before.origin());
        }
    }

    /// Replaces the oldest element (logical index 0) with `new_elt`, which
    /// becomes the newest (last logical index), and returns the old one. The
    /// new element is written where the old one stood, and the ring is turned
    /// by one.
    pub fn push_pop(&mut self, new_elt: T) -> (r: T)
        requires
            old(self)@.len() > 0,
        ensures
            r == old(self)@[0],
            final(self)@ == old(self)@.subrange(1, old(self)@.len() as int).push(new_elt),
            final(self).origin() == old(self).resolve(1),
            final(self).storage() == old(self).storage().update(old(self).resolve(0), new_elt),
    {
        let ghost before = *self;
        let mut elt = new_elt;
        let at = self.resolve_index(0);
        core::mem::swap(&mut self.data[at], &mut elt);
        let ghost written = *self;
        self.shift(1);
        proof {
            let n = before@.len() as int;
            assert forall|j: int| 0 <= j < n implies #[trigger] self@[j] == before@.subrange(
                1,
                n,
            ).push(new_elt)[j] by {
                lemma_rotated_index(written@, 1, j);
                if j < n - 1 {
                    lemma_small_mod((j + 1) as nat, n as nat);
                    lemma_rotated_index(written.storage(), written.origin(), j + 1);
                    lemma_rotated_index(before.storage(), before.origin(), j + 1);
                    if (j + 1 + before.origin()) % n == (0 + before.origin()) % n {
                        lemma_wrap_injective(before.origin(), n, j + 1, 0);
                    }
                } else {
                    lemma_mod_self_0(n);
                    lemma_rotated_index(written.storage(), written.origin(), 0);
                }
            }
            assert(self@ =~= before@.subrange(1, n).push(new_elt));
        }
        elt
    }

    /// Overwrites the oldest `slice.len()` elements with clones of `slice`
    /// and turns the ring by `slice.len()` so that they become the newest:
    /// what was logical index `j + slice.len()` is now logical index `j`, and
    /// the clones fill the end in order.
    pub fn push_clone_from_slice(&mut self, slice: &[T]) where T: Clone
        requires
            slice@.len() < old(self)@.len(),
        ensures
            final(self)@.len() == old(self)@.len(),
            forall|j: int|
                0 <= j < old(self)@.len() - slice@.len() ==> #[trigger] final(self)@[j] == old(
                    self,
                )@[j + slice@.len()],
            forall|j: int|
                old(self)@.len() - slice@.len() <= j < old(self)@.len() ==> cloned(
                    slice@[j - (old(self)@.len() - slice@.len())],
                    #[trigger] final(self)@[j],
                ),
            final(self).origin() == old(self).resolve(slice@.len() as int),
    {
        let ghost before = *self;
        let n = slice.len();
        let mut k: usize = 0;
        while k < n
            invariant
                k <= n,
                n == slice@.len(),
                n < before@.len(),
                self@.len() == before@.len(),
                self.origin() == before.origin(),
                forall|m: int| 0 <= m < k ==> cloned(slice@[m], #[trigger] self@[m]),
                forall|m: int| k <= m < before@.len() ==> #[trigger] self@[m] == before@[m],
            decreases n - k,
        {
            let at = self.position(k);
            let ghost prior = *self;
            let value = slice[k].clone();
            self.data[at] = value;
            proof {
                lemma_rotated_update(prior.storage(), prior.origin(), k as int, value);
            }
            k += 1;
        }
        let ghost written = *self;
        self.zero_offset = self.position(n);
        proof {
            let len = before@.len() as int;
            lemma_rotated_twice(written.storage(), written.origin(), n as int);
            lemma_rotated_mod(written.storage(), n + written.origin());
            assert(self@ == rotated(written@, n as int));
            assert forall|j: int| 0 <= j < len - n implies #[trigger] self@[j] == before@[j + n] by {
                lemma_rotated_index(written@, n as int, j);
                lemma_small_mod((j + n) as nat, len as nat);
            }
            assert forall|j: int| len - n <= j < len implies cloned(
                slice@[j - (len - n)],
                #[trigger] self@[j],
            ) by {
                lemma_rotated_index(written@, n as int, j);
                lemma_fundamental_div_mod_converse(j + n, len, 1, j + n - len);
            }
        }
    }

    /// Exchanges the oldest `slice.len()` elements with `slice` and turns the
    /// ring by `slice.len()` so that the new elements become the newest; a
    /// slice as long as the ring is a full turn, which leaves the rotation as
    /// it was. Afterwards `slice` holds what was pushed out, oldest first.
    pub fn push_pop_slice(&mut self, slice: &mut [T])
        requires
            old(slice)@.len() <= old(self)@.len(),
        ensures
            final(slice)@ == old(self)@.subrange(0, old(slice)@.len() as int),
            final(self)@ == old(self)@.subrange(
                old(slice)@.len() as int,
                old(self)@.len() as int,
            ) + old(slice)@,
            final(self).origin() == if old(slice)@.len() < old(self)@.len() {
                old(self).resolve(old(slice)@.len() as int)
            } else {
                old(self).origin()
            },
    {
        let ghost before = *self;
        let ghost given = slice@;
        let n = slice.len();
        let len = self.data.len();
        let mut k: usize = 0;
        while k < n
            invariant
                k <= n,
                n == given.len(),
                n == slice@.len(),
                n <= before@.len(),
                len == before@.len(),
                self@.len() == before@.len(),
                self.origin() == before.origin(),
                forall|m: int| 0 <= m < k ==> #[trigger] self@[m] == given[m],
                forall|m: int| k <= m < before@.len() ==> #[trigger] self@[m] == before@[m],
                forall|m: int| 0 <= m < k ==> #[trigger] slice@[m] == before@[m],
                forall|m: int| k <= m < n ==> #[trigger] slice@[m] == given[m],
            decreases n - k,
        {
            let at = self.position(k);
            let ghost prior = *self;
            core::mem::swap(&mut self.data[at], &mut slice[k]);
            proof {
                lemma_rotated_index(prior.storage(), prior.origin(), k as int);
                lemma_rotated_update(prior.storage(), prior.origin(), k as int, given[k as int]);
            }
            k += 1;
        }
        let ghost written = *self;
        if n < len {
            self.zero_offset = self.position(n);
        }
        proof {
            let l = before@.len() as int;
            if n < len {
                lemma_rotated_twice(written.storage(), written.origin(), n as int);
                lemma_rotated_mod(written.storage(), n + written.origin());
                assert(self@ == rotated(written@, n as int));
                assert forall|j: int| 0 <= j < l implies #[trigger] self@[j] == (before@.subrange(
                    n as int,
                    l,
                ) + given)[j] by {
                    lemma_rotated_index(written@, n as int, j);
                    if j < l - n {
                        lemma_small_mod((j + n) as nat, l as nat);
                    } else {
                        lemma_fundamental_div_mod_converse(j + n, l, 1, j + n - l);
                    }
                }
            }
            assert(self@ =~= before@.subrange(n as int, l) + given);
            assert(slice@ =~= before@.subrange(0, n as int));
        }
    }

    /// The element at logical index `index`, taken modulo the length, for
    /// writing: what the caller leaves there is what the ring holds. The
    /// rotation stays as it was.
    pub fn get_mut(&mut self, index: isize) -> (r: &mut T)
        requires
            old(self)@.len() > 0,
        ensures
            *r == old(self)@[(index as int) % (old(self)@.len() as int)],
            final(self)@ == old(self)@.update(
                (index as int) % (old(self)@.len() as int),
                *final(r),
            ),
            final(self).origin() == old(self).origin(),
            final(self).storage() == old(self).storage().update(
                old(self).resolve(index as int),
                *final(r),
            ),
    {
        let at = self.resolve_index(index);
        let ghost before = *self;
        let r = &mut self.data[at];
        proof {
            let n = before@.len() as int;
            let k = (index as int) % n;
            lemma_mod_bound(index as int, n);
            lemma_add_mod_noop(index as int, before.origin(), n);
            lemma_add_mod_noop(k, before.origin(), n);
            lemma_mod_twice(index as int, n);
            lemma_rotated_index(before.storage(), before.origin(), k);
            lemma_rotated_update(before.storage(), before.origin(), k, *final(r));
        }
        r
    }
}

impl<T: Clone> RingBuffer<T> {
    /// A ring of `len` clones of `initial`.
    pub fn new(len: usize, initial: T) -> (r: Self)
        ensures
            r@.len() == len,
            r.origin() == 0,
            forall|i: int| 0 <= i < len ==> cloned(initial, #[trigger] r@[i]),
    {
        let r = Self { data: vec![initial; len], zero_offset: 0 };
        proof {
            lemma_rotated_by_zero(r.storage());
        }
        r
    }
}

impl<T> core::ops::Index<isize> for RingBuffer<T> {
    type Output = T;

    /// The element at logical index `index`, taken modulo the length.
    fn index(&self, index: isize) -> (r: &T)
        ensures
            *r == self@[(index as int) % (self@.len() as int)],
    {
        let at = self.resolve_index(index);
        proof {
            let n = self@.len() as int;
            lemma_mod_bound(index as int, n);
            lemma_rotated_index(self.storage(), self.origin(), (index as int) % n);
            lemma_add_mod_noop(index as int, self.origin(), n);
            lemma_add_mod_noop((index as int) % n, self.origin(), n);
            lemma_mod_twice(index as int, n);
        }
        &self.data[at]
    }
}

impl<T> vstd::std_specs::core::IndexSpecImpl<isize> for RingBuffer<T> {
    open spec fn index_req(&self, index: &isize) -> bool {
        self@.len() > 0
    }
}

} // verus!
