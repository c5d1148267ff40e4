//! The wide-slice view itself: indexed access to equal-length sub-slices of a
//! flat buffer, through a permutable buffer of element offsets.

use vstd::arithmetic::div_mod::lemma_fundamental_div_mod;
use vstd::arithmetic::div_mod::lemma_mod_bound;
use vstd::arithmetic::div_mod::lemma_mod_multiples_vanish;
use vstd::arithmetic::div_mod::lemma_small_mod;
use vstd::prelude::*;
use vstd::slice::slice_subrange;

verus! {

/// Two distinct offsets that are both multiples of a positive length `l` head
/// regions of `l` elements that cannot overlap.
pub(crate) proof fn lemma_aligned_disjoint(off1: int, off2: int, l: int)
    requires
        l > 0,
        off1 >= 0,
        off2 >= 0,
        off1 % l == 0,
        off2 % l == 0,
        off1 != off2,
    ensures
        off1 + l <= off2 || off2 + l <= off1,
{
    let q1 = off1 / l;
    let q2 = off2 / l;
    lemma_fundamental_div_mod(off1, l);
    lemma_fundamental_div_mod(off2, l);
    assert(off1 + l <= off2 || off2 + l <= off1) by (nonlinear_arith)
        requires
            off1 == l * q1,
            off2 == l * q2,
            off1 != off2,
            l > 0,
    ;
}

/// The logical sub-slices described by a data buffer, an offset buffer and a
/// common sub-slice length: entry `i` is the run of `l` elements of `data`
/// that starts at `offs[i]`.
pub open spec fn slices_of<T>(data: Seq<T>, offs: Seq<usize>, l: int) -> Seq<Seq<T>> {
    Seq::new(offs.len(), |i: int| data.subrange(offs[i] as int, offs[i] + l))
}

/// The logical content after writing `v` at position `j` of sub-slice `idx`.
pub open spec fn write_model<T>(slices: Seq<Seq<T>>, idx: int, j: int, v: T) -> Seq<Seq<T>> {
    slices.update(idx, slices[idx].update(j, v))
}

/// The sequence `s` after a cyclic rotation to the right by `k` positions:
/// entry `i` of the result is entry `(i - k) mod len` of `s`.
pub open spec fn rotated_right<A>(s: Seq<A>, k: int) -> Seq<A>
    recommends
        s.len() > 0,
{
    Seq::new(s.len(), |i: int| s[(i - k) % (s.len() as int)])
}

/// The position, before a rotation to the right by `r` of a buffer of length
/// `n`, of the entry that the rotation moves to position `m`.
pub open spec fn rot_src(m: int, r: int, n: int) -> int {
    if m >= r {
        m - r
    } else {
        m + n - r
    }
}

/// `rot_src` with the reduced shift `k % n` is exactly the cyclic source
/// index `(m - k) % n`.
proof fn lemma_rot_src_is_mod(m: int, k: int, n: int)
    requires
        n > 0,
        0 <= m < n,
        k >= 0,
    ensures
        rot_src(m, k % n, n) == (m - k) % n,
{
    let r = k % n;
    lemma_mod_bound(k, n);
    lemma_fundamental_div_mod(k, n);
    let q = k / n;
    assert(n * (-q) == -(n * q)) by (nonlinear_arith);
    assert(m - k == n * (-q) + (m - r));
    lemma_mod_multiples_vanish(-q, m - r, n);
    if m >= r {
        lemma_small_mod((m - r) as nat, n as nat);
    } else {
        lemma_mod_multiples_vanish(1, m - r, n);
        lemma_small_mod((m - r + n) as nat, n as nat);
    }
}

/// A flat data buffer of `offsets.len() * slice_len` elements, presented as
/// `offsets.len()` sub-slices of `slice_len` elements each. The `offsets`
/// buffer is the authoritative mapping from logical index to buffer region:
/// permuting it reorders the sub-slices without moving data.
#[derive(Debug)]
pub struct WideSlice<T> {
    pub data: Vec<T>,
    pub offsets: Vec<usize>,
    pub slice_len: usize,
}

impl<T> WideSlice<T> {
    /// How many sub-slices the view presents.
    pub open spec fn n_slices(self) -> int {
        self.offsets@.len() as int
    }

    /// The run of `slice_len` data elements that logical index `idx` designates.
    pub open spec fn slice_at(self, idx: int) -> Seq<T> {
        self.data@.subrange(self.offsets@[idx] as int, self.offsets@[idx] + self.slice_len)
    }

    /// Some entry of the offset buffer holds the `s`-th canonical offset,
    /// `s * slice_len`.
    pub open spec fn covers_slot(self, s: int) -> bool {
        exists|i: int|
            0 <= i < self.n_slices() && self.offsets@[i] as int == s * self.slice_len
    }

    /// Well-formedness: positive dimensions, a data buffer of exactly
    /// `n_slices * slice_len` elements, and an offset buffer whose entries are
    /// a permutation of the canonical even partition: each entry is an
    /// in-bounds multiple of `slice_len`, no two entries coincide, and every
    /// canonical offset is present.
    pub open spec fn wf(self) -> bool {
        &&& self.slice_len > 0
        &&& self.n_slices() > 0
        &&& self.data@.len() == self.n_slices() * self.slice_len
        &&& forall|i: int|
            0 <= i < self.n_slices() ==> (#[trigger] self.offsets@[i]) + self.slice_len
                <= self.data@.len() && self.offsets@[i] as int % (self.slice_len as int) == 0
        &&& forall|i: int, j: int|
            0 <= i < j < self.n_slices() ==> self.offsets@[i] != self.offsets@[j]
        &&& forall|s: int| 0 <= s < self.n_slices() ==> #[trigger] self.covers_slot(s)
    }

    /// Read-only access to the `idx`-th sub-slice, backed directly by the
    /// data buffer region that the `idx`-th offset designates.
    pub fn as_slice(&self, idx: usize) -> (r: &[T])
        requires
            self.wf(),
            idx < self@.len(),
        ensures
            r@ == self@[idx as int],
            r@.len() == self.slice_len,
    {
        let off = self.offsets[idx];
        let dlen = self.data.len();
        assert(off + self.slice_len <= dlen);
        let end = off + self.slice_len;
        slice_subrange(self.data.as_slice(), off, end)
    }

    /// Writes `v` at position `j` of the sub-slice with logical index `idx`,
    /// leaving every other position of every sub-slice unchanged.
    pub fn write_at(&mut self, idx: usize, j: usize, v: T)
        requires
            old(self).wf(),
            idx < old(self)@.len(),
            j < old(self).slice_len,
        ensures
            final(self).wf(),
            final(self)@ == write_model(old(self)@, idx as int, j as int, v),
            final(self)@[idx as int][j as int] == v,
            final(self).offsets@ == old(self).offsets@,
            final(self).slice_len == old(self).slice_len,
            final(self)@.len() == old(self)@.len(),
    {
        let off = self.offsets[idx];
        let dlen = self.data.len();
        assert(off + self.slice_len <= dlen);
        self.data.set(off + j, v);
        proof {
            let l = self.slice_len as int;
            let n = self.offsets@.len() as int;
            assert forall|i: int| 0 <= i < n && i != idx implies self.slice_at(i)
                == old(self).slice_at(i) by {
                lemma_aligned_disjoint(
                    self.offsets@[i] as int,
                    self.offsets@[idx as int] as int,
                    l,
                );
                assert(self.slice_at(i) =~= old(self).slice_at(i));
            };
            assert(self.slice_at(idx as int) =~= old(self).slice_at(idx as int).update(
                j as int,
                v,
            ));
            assert forall|s: int| 0 <= s < n implies self.covers_slot(s) by {
                assert(old(self).covers_slot(s));
                let w = choose|i: int|
                    0 <= i < n && old(self).offsets@[i] as int == s * old(self).slice_len;
                assert(self.offsets@[w] as int == s * self.slice_len);
            };
            let wm = write_model(old(self)@, idx as int, j as int, v);
            assert(self@.len() == wm.len());
            assert forall|i: int| 0 <= i < n implies self@[i] == wm[i] by {
                assert(self@[i] == self.slice_at(i));
                if i == idx {
                    assert(wm[i] == old(self)@[idx as int].update(j as int, v));
                    assert(old(self)@[idx as int] == old(self).slice_at(idx as int));
                } else {
                    assert(wm[i] == old(self)@[i]);
                    assert(old(self)@[i] == old(self).slice_at(i));
                }
            };
            assert(self@ =~= wm);
        }
    }

    /// Rotates the logical order of the sub-slices to the right by `k`
    /// positions, by permuting the offset buffer alone: after the call,
    /// logical index `i` presents the data that index `(i - k) mod n_slices`
    /// presented before, and no data element moves.
    pub fn rotate_right(&mut self, k: usize)
        requires
            old(self).wf(),
        ensures
            final(self).wf(),
            final(self)@ == rotated_right(old(self)@, k as int),
            final(self).data@ == old(self).data@,
            final(self).slice_len == old(self).slice_len,
            final(self)@.len() == old(self)@.len(),
    {
        let n = self.offsets.len();
        let r = k % n;
        let mut rotated: Vec<usize> = Vec::new();
        let mut i: usize = 0;
        while i < n
            invariant
                old(self).wf(),
                self.data@ == old(self).data@,
                self.offsets@ == old(self).offsets@,
                self.slice_len == old(self).slice_len,
                n == self.offsets@.len(),
                r as int == k as int % n as int,
                r < n,
                i <= n,
                rotated@.len() == i as int,
                forall|m: int|
                    0 <= m < i as int ==> rotated@[m] == self.offsets@[rot_src(
                        m,
                        r as int,
                        n as int,
                    )],
            decreases n - i,
        {
            let src = if i >= r {
                i - r
            } else {
                i + (n - r)
            };
            assert(src as int == rot_src(i as int, r as int, n as int));
            rotated.push(self.offsets[src]);
            i += 1;
        }
        proof {
            let n_ = n as int;
            let k_ = k as int;
            let offs0 = old(self).offsets@;
            assert forall|m: int| 0 <= m < n_ implies rotated@[m] == offs0[(m - k_) % n_]
                && 0 <= (m - k_) % n_ < n_ by {
                lemma_rot_src_is_mod(m, k_, n_);
                lemma_mod_bound(m - k_, n_);
            };
        }
        self.offsets = rotated;
        proof {
            let n_ = n as int;
            let k_ = k as int;
            let r_ = r as int;
            let l = self.slice_len as int;
            let offs0 = old(self).offsets@;
            assert forall|m: int|
                0 <= m < n_ implies (#[trigger] self.offsets@[m]) + self.slice_len
                <= self.data@.len() && self.offsets@[m] as int % l == 0 by {
                let s2 = (m - k_) % n_;
                assert(self.offsets@[m] == offs0[s2]);
                assert(offs0[s2] + old(self).slice_len <= old(self).data@.len());
            };
            assert forall|a: int, b: int| 0 <= a < b < n_ implies self.offsets@[a]
                != self.offsets@[b] by {
                let sa = rot_src(a, r_, n_);
                let sb = rot_src(b, r_, n_);
                lemma_rot_src_is_mod(a, k_, n_);
                lemma_rot_src_is_mod(b, k_, n_);
                assert(0 <= sa < n_ && 0 <= sb < n_ && sa != sb);
                if sa < sb {
                    assert(offs0[sa] != offs0[sb]);
                } else {
                    assert(offs0[sb] != offs0[sa]);
                }
            };
            assert forall|s: int| 0 <= s < n_ implies self.covers_slot(s) by {
                assert(old(self).covers_slot(s));
                let i0 = choose|i2: int|
                    0 <= i2 < n_ && offs0[i2] as int == s * old(self).slice_len;
                let w = if i0 + r_ < n_ {
                    i0 + r_
                } else {
                    i0 + r_ - n_
                };
                lemma_rot_src_is_mod(w, k_, n_);
                assert(rot_src(w, r_, n_) == i0);
                assert(self.offsets@[w] as int == s * l);
            };
            let rr = rotated_right(old(self)@, k_);
            assert forall|m: int| 0 <= m < n_ implies self@[m] == rr[m] by {
                let s2 = (m - k_) % n_;
                assert(self.offsets@[m] == offs0[s2]);
                assert(self@[m] == self.slice_at(m));
                assert(rr[m] == old(self)@[s2]);
                assert(old(self)@[s2] == old(self).slice_at(s2));
                assert(self.slice_at(m) == old(self).slice_at(s2));
            };
            assert(self@ =~= rr);
        }
    }

    /// Bounds-checked access: `Some` exactly on indices below the number of
    /// sub-slices, `None` on every out-of-bounds index.
    pub fn get_checked(&self, idx: usize) -> (r: Option<&[T]>)
        requires
            self.wf(),
        ensures
            r is Some <==> idx < self@.len(),
            r matches Some(s) ==> s@ == self@[idx as int],
    {
        if idx < self.offsets.len() {
            Some(self.as_slice(idx))
        } else {
            None
        }
    }
}

impl<T: Copy> WideSlice<T> {
    /// Reads the element at position `j` of the sub-slice with logical
    /// index `idx`.
    pub fn read_at(&self, idx: usize, j: usize) -> (r: T)
        requires
            self.wf(),
            idx < self@.len(),
            j < self.slice_len,
        ensures
            r == self@[idx as int][j as int],
    {
        let off = self.offsets[idx];
        let dlen = self.data.len();
        assert(off + self.slice_len <= dlen);
        self.data[off + j]
    }
}

impl<T> View for WideSlice<T> {
    type V = Seq<Seq<T>>;

    open spec fn view(&self) -> Seq<Seq<T>> {
        slices_of(self.data@, self.offsets@, self.slice_len as int)
    }
}

} // verus!
