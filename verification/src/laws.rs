//! The library's general laws, stated and proved over the same models that
//! the executable functions' contracts use.

use crate::wide::lemma_aligned_disjoint;
use crate::wide::rotated_right;
use crate::wide::write_model;
use crate::wide::WideSlice;
use vstd::arithmetic::div_mod::lemma_fundamental_div_mod;
use vstd::arithmetic::div_mod::lemma_mod_multiples_vanish;
use vstd::arithmetic::div_mod::lemma_mod_pos_bound;
use vstd::arithmetic::div_mod::lemma_small_mod;
use vstd::arithmetic::mul::lemma_mul_is_commutative;
use vstd::prelude::*;

verus! {

/// Data position `d` lies inside the region of sub-slice `i`.
pub open spec fn region_covers<T>(ws: WideSlice<T>, i: int, d: int) -> bool {
    ws.offsets@[i] <= d < ws.offsets@[i] + ws.slice_len
}

/// The regions of sub-slices `i` and `j` share no data position.
pub open spec fn regions_disjoint<T>(ws: WideSlice<T>, i: int, j: int) -> bool {
    ws.offsets@[i] + ws.slice_len <= ws.offsets@[j] || ws.offsets@[j] + ws.slice_len
        <= ws.offsets@[i]
}

/// Data position `d` lies inside the region of some sub-slice.
pub open spec fn covered<T>(ws: WideSlice<T>, d: int) -> bool {
    exists|i: int| 0 <= i < ws.n_slices() && region_covers(ws, i, d)
}

/// A well-formed wide slice partitions its data buffer: there is one
/// sub-slice per offset entry, each of exactly `slice_len` elements, the
/// regions of two distinct sub-slices are disjoint, and together the regions
/// cover the whole data buffer.
pub proof fn lemma_partition<T>(ws: WideSlice<T>)
    requires
        ws.wf(),
    ensures
        ws@.len() == ws.offsets@.len(),
        forall|i: int| 0 <= i < ws@.len() ==> (#[trigger] ws@[i]).len() == ws.slice_len,
        forall|i: int, j: int|
            0 <= i < ws@.len() && 0 <= j < ws@.len() && i != j ==> regions_disjoint(ws, i, j),
        forall|d: int| 0 <= d < ws.data@.len() ==> covered(ws, d),
{
    let n = ws.n_slices();
    let l = ws.slice_len as int;
    assert forall|i: int| 0 <= i < n implies (#[trigger] ws@[i]).len() == ws.slice_len by {
        assert(ws.offsets@[i] + ws.slice_len <= ws.data@.len());
    };
    assert forall|i: int, j: int|
        0 <= i < n && 0 <= j < n && i != j implies regions_disjoint(ws, i, j) by {
        if i < j {
            assert(ws.offsets@[i] != ws.offsets@[j]);
        } else {
            assert(ws.offsets@[j] != ws.offsets@[i]);
        }
        lemma_aligned_disjoint(ws.offsets@[i] as int, ws.offsets@[j] as int, l);
    };
    assert forall|d: int| 0 <= d < ws.data@.len() implies covered(ws, d) by {
        let s = d / l;
        let rem = d % l;
        lemma_fundamental_div_mod(d, l);
        lemma_mod_pos_bound(d, l);
        assert(0 <= s < n) by (nonlinear_arith)
            requires
                d == l * s + rem,
                0 <= rem < l,
                0 <= d,
                d < n * l,
                l > 0,
        ;
        assert(ws.covers_slot(s));
        let i = choose|i: int| 0 <= i < n && ws.offsets@[i] as int == s * ws.slice_len;
        lemma_mul_is_commutative(s, l);
        assert(region_covers(ws, i, d));
    };
}

/// Round trip: writing `v` at position `j` of sub-slice `idx` and then
/// reading the same position yields `v`, and every other position of every
/// sub-slice is unchanged.
pub proof fn lemma_round_trip<T>(slices: Seq<Seq<T>>, idx: int, j: int, v: T)
    requires
        0 <= idx < slices.len(),
        0 <= j < slices[idx].len(),
    ensures
        write_model(slices, idx, j, v)[idx][j] == v,
        forall|i2: int, j2: int|
            0 <= i2 < slices.len() && 0 <= j2 < slices[i2].len() && (i2 != idx || j2 != j)
                ==> write_model(slices, idx, j, v)[i2][j2] == slices[i2][j2],
{
}

/// A full-cycle rotation, by the number of sub-slices, restores the original
/// mapping from logical index to data.
pub proof fn lemma_full_cycle<A>(s: Seq<A>)
    requires
        s.len() > 0,
    ensures
        rotated_right(s, s.len() as int) == s,
{
    let n = s.len() as int;
    assert forall|i: int| 0 <= i < n implies rotated_right(s, n)[i] == s[i] by {
        lemma_mod_multiples_vanish(-1, i, n);
        lemma_small_mod(i as nat, n as nat);
        assert((i - n) % n == i);
    };
    assert(rotated_right(s, n) =~= s);
}

} // verus!
