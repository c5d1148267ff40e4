//! Backing stores: each owns a flat data buffer and a parallel offset buffer,
//! sized consistently, with the offset buffer initialized to the canonical
//! even partition of the data buffer. A wide-slice view is derived from a
//! store through the `IntoWideSlice` capability.

use crate::wide::slices_of;
use crate::wide::WideSlice;
use vstd::arithmetic::div_mod::lemma_div_by_multiple;
use vstd::arithmetic::div_mod::lemma_fundamental_div_mod;
use vstd::arithmetic::div_mod::lemma_mod_multiples_basic;
use vstd::arithmetic::mul::lemma_mul_inequality;
use vstd::arithmetic::mul::lemma_mul_is_commutative;
use vstd::arithmetic::mul::lemma_mul_strict_inequality;
use vstd::prelude::*;

verus! {

/// Offset `i` of the buffer is `i * l`: the canonical even partition into
/// sub-slices of `l` elements each.
pub open spec fn evenly_spaced(offs: Seq<usize>, l: int) -> bool {
    forall|i: int| 0 <= i < offs.len() ==> (#[trigger] offs[i]) as int == i * l
}

/// What every backing store establishes at construction: a non-empty offset
/// buffer, a data buffer of exactly `offs.len()` sub-slices of
/// `data.len() / offs.len()` elements each, and canonical offsets.
pub open spec fn store_wf<T>(data: Seq<T>, offs: Seq<usize>) -> bool {
    let l = data.len() as int / offs.len() as int;
    &&& offs.len() > 0
    &&& l > 0
    &&& data.len() == offs.len() * l
    &&& evenly_spaced(offs, l)
}

/// The capability every backing store variant shares: deriving a wide-slice
/// view over its buffers.
pub trait IntoWideSlice<T>: Sized {
    /// The store's buffers are consistently sized and its offset buffer
    /// holds the canonical even partition.
    spec fn wf(self) -> bool;

    /// The logical sub-slices the store holds.
    spec fn slices_model(self) -> Seq<Seq<T>>;

    /// The common sub-slice length the store was partitioned into.
    spec fn slice_len_model(self) -> int;

    /// Derives the wide-slice view: the store's buffers, presented as
    /// equal-length sub-slices of `data len / n_slices` elements each.
    fn into_wideslice(self) -> (ws: WideSlice<T>)
        requires
            self.wf(),
        ensures
            ws.wf(),
            ws@ == self.slices_model(),
            ws.slice_len as int == self.slice_len_model(),
    ;
}

/// A wide slice whose offset buffer is the canonical even partition is well
/// formed.
proof fn lemma_evenly_spaced_wf<T>(ws: WideSlice<T>)
    requires
        ws.slice_len > 0,
        ws.offsets@.len() > 0,
        ws.data@.len() == ws.offsets@.len() * ws.slice_len,
        evenly_spaced(ws.offsets@, ws.slice_len as int),
    ensures
        ws.wf(),
{
    let n = ws.offsets@.len() as int;
    let l = ws.slice_len as int;
    assert forall|i: int|
        0 <= i < n implies (#[trigger] ws.offsets@[i]) + ws.slice_len <= ws.data@.len()
        && ws.offsets@[i] as int % l == 0 by {
        lemma_mod_multiples_basic(i, l);
        lemma_mul_inequality(i + 1, n, l);
        assert((i + 1) * l == i * l + l) by (nonlinear_arith);
    };
    assert forall|i: int, j: int| 0 <= i < j < n implies ws.offsets@[i] != ws.offsets@[j] by {
        lemma_mul_strict_inequality(i, j, l);
    };
    assert forall|s: int| 0 <= s < n implies ws.covers_slot(s) by {
        assert(ws.offsets@[s] as int == s * l);
    };
}

/// Backing store whose buffers are heap allocated at construction.
#[derive(Debug)]
pub struct HeapMem<T> {
    pub buf: Vec<T>,
    pub ptr: Vec<usize>,
}

impl<T: Copy> HeapMem<T> {
    /// Allocates a data buffer of `slice_size * n_slices` elements, every one
    /// initialized to `fill`, and an offset buffer holding the canonical even
    /// partition.
    pub fn new(slice_size: usize, n_slices: usize, fill: T) -> (m: HeapMem<T>)
        requires
            slice_size > 0,
            n_slices > 0,
            slice_size * n_slices <= usize::MAX,
        ensures
            m.wf(),
            m.buf@.len() == slice_size * n_slices,
            m.ptr@.len() == n_slices,
            forall|d: int| 0 <= d < m.buf@.len() ==> m.buf@[d] == fill,
            evenly_spaced(m.ptr@, slice_size as int),
    {
        let total = slice_size * n_slices;
        let mut buf: Vec<T> = Vec::new();
        let mut d: usize = 0;
        while d < total
            invariant
                d <= total,
                buf@.len() == d,
                forall|x: int| 0 <= x < d ==> buf@[x] == fill,
            decreases total - d,
        {
            buf.push(fill);
            d += 1;
        }
        let mut ptr: Vec<usize> = Vec::new();
        let mut i: usize = 0;
        while i < n_slices
            invariant
                i <= n_slices,
                ptr@.len() == i,
                total == slice_size * n_slices,
                total <= usize::MAX,
                forall|x: int| 0 <= x < i ==> (#[trigger] ptr@[x]) as int == x * slice_size,
            decreases n_slices - i,
        {
            assert((i as int) * (slice_size as int) <= (slice_size as int) * (n_slices as int))
                by (nonlinear_arith)
                requires
                    i < n_slices,
                    slice_size >= 0,
            ;
            let off = i * slice_size;
            ptr.push(off);
            i += 1;
        }
        let m = HeapMem { buf, ptr };
        proof {
            lemma_mul_is_commutative(slice_size as int, n_slices as int);
            lemma_div_by_multiple(slice_size as int, n_slices as int);
            assert(m.buf@.len() as int / m.ptr@.len() as int == slice_size as int);
        }
        m
    }
}

impl<T> IntoWideSlice<T> for HeapMem<T> {
    open spec fn wf(self) -> bool {
        store_wf(self.buf@, self.ptr@)
    }

    open spec fn slices_model(self) -> Seq<Seq<T>> {
        slices_of(self.buf@, self.ptr@, self.buf@.len() as int / self.ptr@.len() as int)
    }

    open spec fn slice_len_model(self) -> int {
        self.buf@.len() as int / self.ptr@.len() as int
    }

    fn into_wideslice(self) -> (ws: WideSlice<T>) {
        let ghost m0 = self;
        let slice_len = self.buf.len() / self.ptr.len();
        let ws = WideSlice { data: self.buf, offsets: self.ptr, slice_len };
        proof {
            lemma_evenly_spaced_wf(ws);
            assert(ws@ == m0.slices_model());
        }
        ws
    }
}

/// Backing store that binds caller-supplied buffers instead of allocating:
/// the data buffer keeps its contents, and the offset buffer's entries are
/// overwritten with the canonical even partition.
#[derive(Debug)]
pub struct StaticMem<T> {
    pub buf: Vec<T>,
    pub ptr: Vec<usize>,
}

impl<T> StaticMem<T> {
    /// Binds the given buffers: `slice_len` becomes `buf len / ptr_buf len`,
    /// the data buffer is taken over unchanged, and each entry of the offset
    /// buffer is set to its canonical value.
    pub fn new(buf: Vec<T>, ptr_buf: Vec<usize>) -> (m: StaticMem<T>)
        requires
            ptr_buf@.len() > 0,
            buf@.len() > 1,
            buf@.len() as int % ptr_buf@.len() as int == 0,
        ensures
            m.wf(),
            m.buf@ == buf@,
            m.ptr@.len() == ptr_buf@.len(),
            evenly_spaced(m.ptr@, buf@.len() as int / ptr_buf@.len() as int),
    {
        let n = ptr_buf.len();
        let blen = buf.len();
        let slice_len = blen / n;
        proof {
            lemma_fundamental_div_mod(buf@.len() as int, n as int);
            assert(buf@.len() == n * slice_len);
            assert(slice_len > 0) by (nonlinear_arith)
                requires
                    buf@.len() == n * slice_len,
                    buf@.len() > 1,
                    slice_len >= 0,
            ;
        }
        let mut ptr = ptr_buf;
        let mut idx: usize = 0;
        while idx < n
            invariant
                idx <= n,
                n == ptr@.len(),
                buf@.len() == n * slice_len,
                n * slice_len <= usize::MAX,
                slice_len > 0,
                forall|x: int| 0 <= x < idx ==> (#[trigger] ptr@[x]) as int == x * slice_len,
            decreases n - idx,
        {
            assert((idx as int) * (slice_len as int) + slice_len <= (n as int) * (
            slice_len as int)) by (nonlinear_arith)
                requires
                    idx < n,
                    slice_len > 0,
            ;
            let off = idx * slice_len;
            ptr.set(idx, off);
            idx += 1;
        }
        let m = StaticMem { buf, ptr };
        proof {
            lemma_mul_is_commutative(n as int, slice_len as int);
            lemma_div_by_multiple(slice_len as int, n as int);
            assert(m.buf@.len() as int / m.ptr@.len() as int == slice_len as int);
        }
        m
    }

    /// Checked construction: `Some` exactly when the binding preconditions
    /// hold (a non-empty offset buffer, a data buffer of more than one
    /// element, and a data buffer length divisible by the offset buffer
    /// length), `None` otherwise.
    pub fn try_new(buf: Vec<T>, ptr_buf: Vec<usize>) -> (r: Option<StaticMem<T>>)
        ensures
            r is Some <==> (ptr_buf@.len() > 0 && buf@.len() > 1 && buf@.len() as int
                % ptr_buf@.len() as int == 0),
            r matches Some(m) ==> m.wf() && m.buf@ == buf@ && m.ptr@.len() == ptr_buf@.len(),
    {
        if ptr_buf.len() > 0 && buf.len() > 1 && buf.len() % ptr_buf.len() == 0 {
            Some(StaticMem::new(buf, ptr_buf))
        } else {
            None
        }
    }
}

impl<T> IntoWideSlice<T> for StaticMem<T> {
    open spec fn wf(self) -> bool {
        store_wf(self.buf@, self.ptr@)
    }

    open spec fn slices_model(self) -> Seq<Seq<T>> {
        slices_of(self.buf@, self.ptr@, self.buf@.len() as int / self.ptr@.len() as int)
    }

    open spec fn slice_len_model(self) -> int {
        self.buf@.len() as int / self.ptr@.len() as int
    }

    fn into_wideslice(self) -> (ws: WideSlice<T>) {
        let ghost m0 = self;
        let slice_len = self.buf.len() / self.ptr.len();
        let ws = WideSlice { data: self.buf, offsets: self.ptr, slice_len };
        proof {
            lemma_evenly_spaced_wf(ws);
            assert(ws@ == m0.slices_model());
        }
        ws
    }
}

/// Compile-time-sized backing store: both dimensions are fixed at build time,
/// so neither buffer needs allocation. A placeholder for a zero-allocation
/// variant: it is constructible but exposes no operations yet and does not
/// derive a wide-slice view.
#[derive(Debug)]
pub struct ConstMem<T, const SLICE_LEN: usize, const N_SLICES: usize> {
    pub buf: [[T; SLICE_LEN]; N_SLICES],
    pub ptr: [usize; N_SLICES],
}

} // verus!
