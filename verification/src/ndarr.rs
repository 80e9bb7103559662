use crate::chunk_arr::in_bounds;
use crate::chunk_arr::ravel;
use crate::chunk_arr::unravel;
use crate::chunk_grid::shapes_of;
use crate::chunk_grid::ArrayRegion;
use crate::chunk_grid::ArraySlice;
use crate::coord::product;
use crate::data_type::DataType;
use crate::data_type::NBytes;
use vstd::prelude::*;

verus! {

/// Elements of one fixed size, stored as bytes one after another.
#[derive(Debug)]
pub struct ElemBuf {
    pub size: usize,
    pub bytes: Vec<u8>,
}

impl View for ElemBuf {
    type V = Seq<Seq<u8>>;

    /// The elements, each as its bytes.
    open spec fn view(&self) -> Seq<Seq<u8>> {
        Seq::new(self.count(), |k: int| self.elem(k))
    }
}

impl Clone for ElemBuf {
    fn clone(&self) -> (r: ElemBuf)
        ensures
            r.size == self.size,
            r.bytes@ == self.bytes@,
    {
        ElemBuf { size: self.size, bytes: self.bytes.clone() }
    }
}

impl ElemBuf {
    pub open spec fn wf(&self) -> bool {
        &&& self.size > 0
        &&& self.bytes@.len() == self.count() * self.size
    }

    /// Number of elements.
    pub open spec fn count(&self) -> nat {
        if self.size == 0 {
            0
        } else {
            self.bytes@.len() / (self.size as nat)
        }
    }

    /// Bytes of the `k`-th element.
    pub open spec fn elem(&self, k: int) -> Seq<u8> {
        self.bytes@.subrange(k * self.size, k * self.size + self.size)
    }

    /// Where the `k`-th of `n` elements lies.
    pub proof fn lemma_elem_range(size: nat, n: nat, k: int)
        requires
            0 <= k < n,
        ensures
            0 <= k * size,
            k * size + size <= n * size,
            k * size + size == (k + 1) * size,
    {
        assert(0 <= k * size && k * size + size <= n * size && k * size + size == (k + 1) * size)
            by (nonlinear_arith)
            requires
                0 <= k < n,
                size >= 0,
        ;
    }

    /// The `k`-th element lies within the bytes.
    pub proof fn lemma_elem_fits(&self, k: int)
        requires
            self.wf(),
            0 <= k < self.count(),
        ensures
            0 <= k * (self.size as int),
            k * (self.size as int) + self.size <= self.bytes@.len(),
            self.elem(k).len() == self.size,
    {
        let s = self.size as int;
        let n = self.count() as int;
        assert(0 <= k * s && k * s + s <= n * s) by (nonlinear_arith)
            requires
                0 <= k < n,
                s >= 0,
        ;
    }

    /// A buffer of `n` whole elements has `n` elements.
    pub proof fn lemma_count(size: nat, n: nat)
        requires
            size > 0,
        ensures
            (n * size) / size == n,
            (n * size) % size == 0,
    {
        vstd::arithmetic::div_mod::lemma_fundamental_div_mod_converse(
            (n * size) as int,
            size as int,
            n as int,
            0,
        );
    }

    /// Buffers with the same elements of the same size hold the same bytes.
    pub proof fn lemma_ext(a: ElemBuf, b: ElemBuf)
        requires
            a.wf(),
            b.wf(),
            a.size == b.size,
            a@ == b@,
        ensures
            a.bytes@ == b.bytes@,
    {
        let size = a.size as nat;
        assert(b@.len() == b.count());
        assert forall|t: int| 0 <= t < a.bytes@.len() implies a.bytes@[t] == b.bytes@[t] by {
            let k = t / (size as int);
            let r = t % (size as int);
            vstd::arithmetic::div_mod::lemma_fundamental_div_mod(t, size as int);
            vstd::arithmetic::div_mod::lemma_mod_bound(t, size as int);
            vstd::arithmetic::div_mod::lemma_div_pos_is_pos(t, size as int);
            assert(k < a.count()) by (nonlinear_arith)
                requires
                    t < a.count() * size,
                    t == size * k + r,
                    r >= 0,
                    size > 0,
            ;
            Self::lemma_elem_range(size, a.count(), k);
            assert(b@[k] == b.elem(k));
            assert(b.elem(k)[r] == b.bytes@[t]);
        }
    }

    /// An empty buffer for elements of `size` bytes.
    pub fn new(size: usize) -> (b: ElemBuf)
        requires
            size > 0,
        ensures
            b.wf(),
            b.size == size,
            b.bytes@.len() == 0,
            b@.len() == 0,
    {
        let b = ElemBuf { size, bytes: Vec::new() };
        proof {
            Self::lemma_count(size as nat, 0);
        }
        b
    }

    /// The buffer that holds the given bytes, where they are a whole number
    /// of elements.
    pub fn from_bytes(size: usize, bytes: Vec<u8>) -> (r: Option<ElemBuf>)
        ensures
            (size > 0 && bytes@.len() % (size as nat) == 0) <==> r.is_some(),
            r matches Some(b) ==> b.wf() && b.size == size && b.bytes@ == bytes@,
    {
        if size == 0 {
            return None;
        }
        if bytes.len() % size != 0 {
            return None;
        }
        proof {
            vstd::arithmetic::div_mod::lemma_fundamental_div_mod(
                bytes@.len() as int,
                size as int,
            );
            let q = bytes@.len() as int / (size as int);
            assert(size * q == q * size) by (nonlinear_arith);
        }
        Some(ElemBuf { size, bytes })
    }

    /// Number of elements.
    pub fn len(&self) -> (n: usize)
        requires
            self.wf(),
        ensures
            n == self.count(),
            n == self@.len(),
    {
        self.bytes.len() / self.size
    }

    /// Appends one element.
    pub fn push_elem(&mut self, e: &[u8])
        requires
            old(self).wf(),
            e@.len() == old(self).size,
        ensures
            final(self).wf(),
            final(self).size == old(self).size,
            final(self).bytes@ == old(self).bytes@ + e@,
            final(self)@ == old(self)@.push(e@),
    {
        let ghost size = self.size as nat;
        let ghost n = self.count();
        let ghost before = *self;
        let mut i: usize = 0;
        while i < e.len()
            invariant
                self.size == size,
                e@.len() == size,
                i <= e@.len(),
                self.bytes@ == before.bytes@ + e@.take(i as int),
            decreases e@.len() - i,
        {
            self.bytes.push(e[i]);
            i += 1;
        }
        proof {
            assert((n + 1) * size == n * size + size) by (nonlinear_arith);
            Self::lemma_count(size, n + 1);
            assert forall|k: int| 0 <= k < n + 1 implies #[trigger] self@[k] == before@.push(
                e@,
            )[k] by {
                Self::lemma_elem_range(size, n + 1, k);
                if k < n {
                    Self::lemma_elem_range(size, n, k);
                } else {
                }
            }
        }
    }

    /// The bytes of the `k`-th element.
    pub fn get_elem(&self, k: usize) -> (e: &[u8])
        requires
            self.wf(),
            k < self.count(),
        ensures
            e@ == self@[k as int],
            e@.len() == self.size,
    {
        let total: usize = self.bytes.len();
        proof {
            self.lemma_elem_fits(k as int);
        }
        let start: usize = k * self.size;
        vstd::slice::slice_subrange(self.bytes.as_slice(), start, start + self.size)
    }

    /// Overwrites the `k`-th element.
    pub fn set_elem(&mut self, k: usize, e: &[u8])
        requires
            old(self).wf(),
            k < old(self).count(),
            e@.len() == old(self).size,
        ensures
            final(self).wf(),
            final(self).size == old(self).size,
            final(self)@ == old(self)@.update(k as int, e@),
    {
        let ghost size = self.size as nat;
        let ghost n = self.count();
        let ghost before = *self;
        let total: usize = self.bytes.len();
        proof {
            Self::lemma_elem_range(size, n, k as int);
            self.lemma_elem_fits(k as int);
        }
        let start: usize = k * self.size;
        let mut i: usize = 0;
        while i < e.len()
            invariant
                self.size == size,
                e@.len() == size,
                start == k * size,
                start + size <= before.bytes@.len(),
                before.bytes@.len() == total,
                i <= e@.len(),
                self.bytes@.len() == before.bytes@.len(),
                forall|t: int|
                    0 <= t < self.bytes@.len() ==> self.bytes@[t] == if start <= t < start + i {
                        e@[t - start]
                    } else {
                        before.bytes@[t]
                    },
            decreases e@.len() - i,
        {
            self.bytes.set(start + i, e[i]);
            i += 1;
        }
        proof {
            assert forall|j: int| 0 <= j < n implies #[trigger] self@[j] == before@.update(
                k as int,
                e@,
            )[j] by {
                Self::lemma_elem_range(size, n, j);
                if j == k {
                } else {
                    assert(j * size + size <= k * size || k * size + size <= j * size)
                        by (nonlinear_arith)
                        requires
                            j != k,
                            size >= 0,
                    ;
                }
            }
        }
    }
}

/// Whether the region lies within an array of the given shape.
pub open spec fn region_within(r: Seq<ArraySlice>, shape: Seq<u64>) -> bool {
    &&& r.len() == shape.len()
    &&& forall|d: int| 0 <= d < r.len() ==> (#[trigger] r[d]).spec_end() <= shape[d]
}

/// Whether the cell `idx` lies in the region.
pub open spec fn in_region(idx: Seq<u64>, r: Seq<ArraySlice>) -> bool {
    &&& idx.len() == r.len()
    &&& forall|d: int|
        0 <= d < r.len() ==> (#[trigger] r[d]).offset <= idx[d] && idx[d] < r[d].spec_end()
}

/// The cell that lies `idx` behind the region's first cell.
pub open spec fn shift(idx: Seq<u64>, r: Seq<ArraySlice>) -> Seq<u64> {
    Seq::new(r.len(), |d: int| (idx[d] + r[d].offset) as u64)
}

/// Where the cell `idx` lies, counted from the region's first cell.
pub open spec fn unshift(idx: Seq<u64>, r: Seq<ArraySlice>) -> Seq<u64> {
    Seq::new(r.len(), |d: int| (idx[d] - r[d].offset) as u64)
}

/// Whether `order` names every axis `0..n` exactly once.
pub open spec fn is_permutation(order: Seq<usize>) -> bool {
    &&& order.len() <= usize::MAX
    &&& forall|d: int| 0 <= d < order.len() ==> #[trigger] order[d] < order.len()
    &&& forall|d: int, e: int|
        0 <= d < order.len() && 0 <= e < order.len() && d != e ==> order[d] != order[e]
}

/// Whether `inv` undoes `order`.
pub open spec fn is_inverse(inv: Seq<usize>, order: Seq<usize>) -> bool {
    &&& inv.len() == order.len()
    &&& forall|d: int| 0 <= d < order.len() ==> #[trigger] order[d] < order.len()
    &&& forall|d: int| 0 <= d < order.len() ==> inv[#[trigger] order[d] as int] == d
    &&& forall|m: int| 0 <= m < inv.len() ==> #[trigger] inv[m] < order.len()
    &&& forall|m: int| 0 <= m < inv.len() ==> order[#[trigger] inv[m] as int] == m
}

/// The entries of `x`, taken in the given order of axes.
pub open spec fn permute(x: Seq<u64>, order: Seq<usize>) -> Seq<u64> {
    Seq::new(order.len(), |d: int| x[order[d] as int])
}

pub proof fn lemma_product_le(a: Seq<u64>, b: Seq<u64>)
    requires
        a.len() == b.len(),
        forall|d: int| 0 <= d < a.len() ==> a[d] <= b[d],
    ensures
        product(a) <= product(b),
    decreases a.len(),
{
    if a.len() > 0 {
        lemma_product_le(a.drop_last(), b.drop_last());
        let pa = product(a.drop_last());
        let pb = product(b.drop_last());
        let x = a.last() as nat;
        let y = b.last() as nat;
        assert(pa * x <= pb * y) by (nonlinear_arith)
            requires
                pa <= pb,
                x <= y,
        ;
    }
}

/// Shifting by a region that lies within the array maps the cells of the
/// region's shape into the array, and back.
pub proof fn lemma_shift(idx: Seq<u64>, r: Seq<ArraySlice>, shape: Seq<u64>)
    requires
        region_within(r, shape),
        in_bounds(idx, shapes_of(r)),
    ensures
        in_bounds(shift(idx, r), shape),
        in_region(shift(idx, r), r),
        unshift(shift(idx, r), r) == idx,
{
    let s = shift(idx, r);
    assert forall|d: int| 0 <= d < r.len() implies s[d] == idx[d] + r[d].offset && s[d]
        < shape[d] by {
    }
}

pub proof fn lemma_unshift(idx: Seq<u64>, r: Seq<ArraySlice>)
    requires
        in_region(idx, r),
    ensures
        in_bounds(unshift(idx, r), shapes_of(r)),
        shift(unshift(idx, r), r) == idx,
{
    let u = unshift(idx, r);
    assert forall|d: int| 0 <= d < r.len() implies u[d] == idx[d] - r[d].offset && u[d]
        < shapes_of(r)[d] by {
    }
}

/// An N-dimensional array of elements of one data type. The elements lie in
/// C order; each is held as the bytes of its value, lowest byte first.
#[derive(Debug)]
pub struct NDArr {
    pub shape: Vec<u64>,
    pub data_type: DataType,
    pub elems: ElemBuf,
}

impl Clone for NDArr {
    fn clone(&self) -> (r: NDArr)
        ensures
            r.same(self),
    {
        NDArr { shape: self.shape.clone(), data_type: self.data_type, elems: self.elems.clone() }
    }
}

impl NDArr {
    pub open spec fn wf(&self) -> bool {
        &&& self.elems.wf()
        &&& self.elems.size == self.data_type.spec_nbytes()
        &&& self.elems.count() == product(self.shape@)
    }

    /// The element at the cell `idx`.
    pub open spec fn at(&self, idx: Seq<u64>) -> Seq<u8> {
        self.elems@[ravel(idx, self.shape@) as int]
    }

    /// Whether both arrays have the same shape, type and bytes.
    pub open spec fn same(&self, other: &NDArr) -> bool {
        &&& self.shape@ == other.shape@
        &&& self.data_type == other.data_type
        &&& self.elems.size == other.elems.size
        &&& self.elems.bytes@ == other.elems.bytes@
    }

    /// Arrays of one shape and type that agree in every cell are the same.
    pub proof fn lemma_same_by_at(a: &NDArr, b: &NDArr)
        requires
            a.wf(),
            b.wf(),
            a.shape@ == b.shape@,
            a.data_type == b.data_type,
            forall|idx: Seq<u64>| in_bounds(idx, a.shape@) ==> #[trigger] a.at(idx) == b.at(idx),
        ensures
            a.same(b),
    {
        assert forall|k: int| 0 <= k < a.elems@.len() implies a.elems@[k] == b.elems@[k] by {
            crate::chunk_arr::lemma_ravel_unravel(k as nat, a.shape@);
            let idx = unravel(k as nat, a.shape@);
            assert(a.at(idx) == b.at(idx));
        }
        assert(a.elems@ =~= b.elems@);
        ElemBuf::lemma_ext(a.elems, b.elems);
    }

    /// The array of the given shape whose elements all have the bytes
    /// `fill`, where so many elements can be held.
    pub fn from_elem(shape: &[u64], data_type: DataType, fill: &[u8]) -> (r: Option<NDArr>)
        requires
            fill@.len() == data_type.spec_nbytes(),
            fill@.len() > 0,
        ensures
            product(shape@) * fill@.len() <= usize::MAX <==> r.is_some(),
            r matches Some(a) ==> {
                &&& a.wf()
                &&& a.shape@ == shape@
                &&& a.data_type == data_type
                &&& a.elems@.len() == product(shape@)
                &&& forall|k: int| 0 <= k < a.elems@.len() ==> #[trigger] a.elems@[k] == fill@
            },
    {
        let es: usize = fill.len();
        let n: usize = match crate::coord::checked_numel(shape) {
            Some(n) => n,
            None => {
                proof {
                    let p = product(shape@);
                    assert(p * (es as nat) >= p) by (nonlinear_arith)
                        requires
                            es >= 1,
                    ;
                }
                return None;
            },
        };
        if n.checked_mul(es).is_none() {
            return None;
        }
        let mut elems = ElemBuf::new(es);
        let mut k: usize = 0;
        while k < n
            invariant
                k <= n,
                n * es <= usize::MAX,
                fill@.len() == es,
                elems.wf(),
                elems.size == es,
                elems@.len() == k,
                forall|j: int| 0 <= j < k ==> #[trigger] elems@[j] == fill@,
            decreases n - k,
        {
            elems.push_elem(fill);
            k += 1;
        }
        Some(NDArr { shape: vstd::slice::slice_to_vec(shape), data_type, elems })
    }

    /// The array of the given shape and type that holds the given bytes,
    /// where they are exactly the bytes of so many elements.
    pub fn from_bytes(shape: &[u64], data_type: DataType, bytes: Vec<u8>) -> (r: Option<NDArr>)
        ensures
            (data_type.spec_nbytes() > 0 && bytes@.len() == product(shape@)
                * data_type.spec_nbytes()) <==> r.is_some(),
            r matches Some(a) ==> {
                &&& a.wf()
                &&& a.shape@ == shape@
                &&& a.data_type == data_type
                &&& a.elems.bytes@ == bytes@
            },
    {
        let es: usize = data_type.nbytes();
        if es == 0 {
            return None;
        }
        let len: usize = bytes.len();
        let ghost p = product(shape@);
        let n: usize = match crate::coord::checked_numel(shape) {
            Some(n) => n,
            None => {
                proof {
                    assert(p * (es as nat) >= p) by (nonlinear_arith)
                        requires
                            es >= 1,
                    ;
                }
                return None;
            },
        };
        match n.checked_mul(es) {
            None => {
                return None;
            },
            Some(total) => {
                if total != len {
                    return None;
                }
            },
        }
        proof {
            ElemBuf::lemma_count(es as nat, n as nat);
        }
        match ElemBuf::from_bytes(es, bytes) {
            Some(elems) => Some(
                NDArr { shape: vstd::slice::slice_to_vec(shape), data_type, elems },
            ),
            None => None,
        }
    }

    /// Number of elements.
    pub fn numel(&self) -> (n: usize)
        requires
            self.wf(),
        ensures
            n == product(self.shape@),
    {
        self.elems.len()
    }

    /// Whether every element has the bytes `fill`.
    pub fn all_equal_to(&self, fill: &[u8]) -> (b: bool)
        requires
            self.wf(),
        ensures
            b == (forall|k: int| 0 <= k < self.elems@.len() ==> #[trigger] self.elems@[k] == fill@),
            b == self@.all_equal_to(fill@),
    {
        proof {
            self.lemma_view();
            if self@.all_equal_to(fill@) {
                assert forall|k: int| 0 <= k < self.elems@.len() implies #[trigger] self.elems@[k]
                    == fill@ by {
                }
            }
            if forall|k: int| 0 <= k < self.elems@.len() ==> #[trigger] self.elems@[k] == fill@ {
                assert forall|k: int| 0 <= k < product(self.shape@) implies #[trigger] self@.elem(k)
                    == fill@ by {
                    assert(self.elems@[k] == fill@);
                }
            }
        }
        let n = self.elems.len();
        let mut k: usize = 0;
        while k < n
            invariant
                self.wf(),
                n == self.elems@.len(),
                n == product(self.shape@),
                forall|j: int| 0 <= j < n ==> #[trigger] self.elems@[j] == self@.elem(j),
                k <= n,
                forall|j: int| 0 <= j < k ==> #[trigger] self.elems@[j] == fill@,
            decreases n - k,
        {
            if !bytes_equal(self.elems.get_elem(k), fill) {
                return false;
            }
            k += 1;
        }
        true
    }

    /// The part of the array that lies in the region, as an array of its
    /// own.
    pub fn slice(&self, region: &ArrayRegion) -> (out: NDArr)
        requires
            self.wf(),
            region_within(region@, self.shape@),
        ensures
            out.wf(),
            out@ == self@.slice(region@),
            out.shape@ == shapes_of(region@),
            out.data_type == self.data_type,
            forall|idx: Seq<u64>|
                in_bounds(idx, shapes_of(region@)) ==> #[trigger] out.at(idx) == self.at(
                    shift(idx, region@),
                ),
    {
        let out_shape: Vec<u64> = region.shape().to_vec();
        let total: usize = self.elems.len();
        proof {
            assert forall|d: int| 0 <= d < out_shape@.len() implies out_shape@[d]
                <= self.shape@[d] by {
            }
            lemma_product_le(out_shape@, self.shape@);
        }
        let n: usize = match crate::coord::checked_numel(out_shape.as_slice()) {
            Some(n) => n,
            None => 0,
        };
        let mut elems = ElemBuf::new(self.elems.size);
        let mut k: usize = 0;
        while k < n
            invariant
                self.wf(),
                product(self.shape@) <= usize::MAX,
                region_within(region@, self.shape@),
                out_shape@ == shapes_of(region@),
                n == product(out_shape@),
                k <= n,
                elems.wf(),
                elems.size == self.elems.size,
                elems@.len() == k,
                forall|j: int|
                    0 <= j < k ==> #[trigger] elems@[j] == self.elems@[ravel(
                        shift(unravel(j as nat, out_shape@), region@),
                        self.shape@,
                    ) as int],
            decreases n - k,
        {
            let idx = crate::chunk_arr::unravel_index(k, out_shape.as_slice());
            proof {
                lemma_shift(idx@, region@, self.shape@);
            }
            let src_idx = shift_index(idx.as_slice(), region);
            let p = crate::chunk_arr::ravel_index(src_idx.as_slice(), self.shape.as_slice());
            elems.push_elem(self.elems.get_elem(p));
            k += 1;
        }
        let out = NDArr { shape: out_shape, data_type: self.data_type, elems };
        proof {
            ElemBuf::lemma_count(out.elems.size as nat, n as nat);
            assert forall|idx: Seq<u64>| in_bounds(idx, shapes_of(region@)) implies #[trigger] out.at(
                idx,
            ) == self.at(shift(idx, region@)) by {
                crate::chunk_arr::lemma_ravel_bound(idx, out.shape@);
                crate::chunk_arr::lemma_unravel_ravel(idx, out.shape@);
            }
            self.lemma_view();
            let r = region@;
            let m = self@;
            let f = |k: int| m.at(shift(unravel(k as nat, shapes_of(r)), r));
            assert forall|k: int| 0 <= k < n implies (#[trigger] f(k)).len() == m.es() && out.elems@[k]
                == f(k) by {
                crate::chunk_arr::lemma_ravel_unravel(k as nat, shapes_of(r));
                let src = shift(unravel(k as nat, shapes_of(r)), r);
                lemma_shift(unravel(k as nat, shapes_of(r)), r, self.shape@);
                crate::chunk_arr::lemma_ravel_bound(src, self.shape@);
                ElemBuf::lemma_elem_range(m.es(), product(self.shape@), ravel(src, self.shape@) as int);
            }
            ArrayModel::lemma_from_elems(shapes_of(r), self.data_type, f);
            out.lemma_is_model(m.slice(r));
        }
        out
    }

    /// Overwrites the part of the array that lies in the region with the
    /// elements of `src`.
    pub fn assign(&mut self, region: &ArrayRegion, src: &NDArr)
        requires
            old(self).wf(),
            src.wf(),
            src.data_type == old(self).data_type,
            region_within(region@, old(self).shape@),
            src.shape@ == shapes_of(region@),
        ensures
            final(self).wf(),
            final(self)@ == old(self)@.assign(region@, src@),
            final(self).shape@ == old(self).shape@,
            final(self).data_type == old(self).data_type,
            forall|idx: Seq<u64>|
                in_bounds(idx, old(self).shape@) ==> #[trigger] final(self).at(idx) == if in_region(
                    idx,
                    region@,
                ) {
                    src.at(unshift(idx, region@))
                } else {
                    old(self).at(idx)
                },
    {
        let ghost before = *self;
        let n: usize = src.elems.len();
        let total: usize = self.elems.len();
        let mut j: usize = 0;
        while j < n
            invariant
                product(before.shape@) <= usize::MAX,
                before.wf(),
                src.wf(),
                src.data_type == before.data_type,
                region_within(region@, before.shape@),
                src.shape@ == shapes_of(region@),
                n == product(src.shape@),
                j <= n,
                self.shape@ == before.shape@,
                self.data_type == before.data_type,
                self.wf(),
                forall|q: int|
                    0 <= q < product(before.shape@) ==> #[trigger] self.elems@[q] == assigned_elem(
                        before.elems@,
                        src.elems@,
                        before.shape@,
                        region@,
                        j as nat,
                        q,
                    ),
            decreases n - j,
        {
            let sub_idx = crate::chunk_arr::unravel_index(j, src.shape.as_slice());
            proof {
                lemma_shift(sub_idx@, region@, before.shape@);
            }
            let dst_idx = shift_index(sub_idx.as_slice(), region);
            let p = crate::chunk_arr::ravel_index(dst_idx.as_slice(), self.shape.as_slice());
            let ghost cur = self.elems@;
            self.elems.set_elem(p, src.elems.get_elem(j));
            proof {
                assert(self.elems.count() == self.elems@.len());
                ElemBuf::lemma_count(self.elems.size as nat, product(before.shape@));
                crate::chunk_arr::lemma_unravel_ravel(dst_idx@, before.shape@);
                assert forall|q: int| 0 <= q < product(before.shape@) implies #[trigger] self.elems@[q]
                    == assigned_elem(
                    before.elems@,
                    src.elems@,
                    before.shape@,
                    region@,
                    (j + 1) as nat,
                    q,
                ) by {
                    let idx = unravel(q as nat, before.shape@);
                    if q != p {
                        if in_region(idx, region@) && ravel(unshift(idx, region@), src.shape@)
                            == j {
                            lemma_unshift(idx, region@);
                            crate::chunk_arr::lemma_unravel_ravel(
                                unshift(idx, region@),
                                src.shape@,
                            );
                            crate::chunk_arr::lemma_ravel_unravel(q as nat, before.shape@);
                            assert(false);
                        }
                    }
                }
            }
            j += 1;
        }
        proof {
            assert forall|idx: Seq<u64>| in_bounds(idx, before.shape@) implies #[trigger] self.at(idx)
                == if in_region(idx, region@) {
                src.at(unshift(idx, region@))
            } else {
                before.at(idx)
            } by {
                crate::chunk_arr::lemma_ravel_bound(idx, before.shape@);
                crate::chunk_arr::lemma_unravel_ravel(idx, before.shape@);
                if in_region(idx, region@) {
                    lemma_unshift(idx, region@);
                    crate::chunk_arr::lemma_ravel_bound(unshift(idx, region@), src.shape@);
                }
            }
            before.lemma_view();
            src.lemma_view();
            let r = region@;
            let m = before@;
            let sm = src@;
            let f = |q: int|
                {
                    let idx = unravel(q as nat, m.shape);
                    if in_region(idx, r) {
                        sm.at(unshift(idx, r))
                    } else {
                        m.elem(q)
                    }
                };
            assert forall|q: int| 0 <= q < product(m.shape) implies (#[trigger] f(q)).len() == m.es()
                && self.elems@[q] == f(q) by {
                let idx = unravel(q as nat, m.shape);
                ElemBuf::lemma_elem_range(m.es(), product(m.shape), q);
                assert(self.elems@[q] == assigned_elem(
                    before.elems@,
                    src.elems@,
                    before.shape@,
                    region@,
                    n as nat,
                    q,
                ));
                if in_region(idx, r) {
                    lemma_unshift(idx, r);
                    let u = unshift(idx, r);
                    crate::chunk_arr::lemma_ravel_bound(u, src.shape@);
                    ElemBuf::lemma_elem_range(sm.es(), product(sm.shape), ravel(u, sm.shape) as int);
                }
            }
            ArrayModel::lemma_from_elems(m.shape, m.data_type, f);
            self.lemma_is_model(m.assign(r, sm));
        }
    }

    /// The array with its axes in the given order: axis `d` of the result
    /// is axis `order[d]` of this array.
    pub fn permuted_axes(&self, order: &[usize]) -> (out: NDArr)
        requires
            self.wf(),
            order@.len() == self.shape@.len(),
            is_permutation(order@),
        ensures
            out.wf(),
            out@ == self@.permute(order@),
            out.shape@ == permute(self.shape@, order@),
            out.data_type == self.data_type,
            forall|idx: Seq<u64>|
                in_bounds(idx, self.shape@) ==> out.at(permute(idx, order@)) == #[trigger] self.at(
                    idx,
                ),
    {
        let inv = reverse_permutation(order);
        let out_shape = permute_index(self.shape.as_slice(), order);
        proof {
            lemma_product_permute(self.shape@, order@, inv@);
        }
        let n: usize = self.elems.len();
        let mut elems = ElemBuf::new(self.elems.size);
        let mut k: usize = 0;
        while k < n
            invariant
                self.wf(),
                order@.len() == self.shape@.len(),
                is_inverse(inv@, order@),
                out_shape@ == permute(self.shape@, order@),
                n == product(out_shape@),
                n == product(self.shape@),
                k <= n,
                elems.wf(),
                elems.size == self.elems.size,
                elems@.len() == k,
                forall|j: int|
                    0 <= j < k ==> #[trigger] elems@[j] == self.elems@[ravel(
                        permute(unravel(j as nat, out_shape@), inv@),
                        self.shape@,
                    ) as int],
            decreases n - k,
        {
            let idx = crate::chunk_arr::unravel_index(k, out_shape.as_slice());
            let src_idx = permute_index(idx.as_slice(), inv.as_slice());
            proof {
                assert forall|m: int| 0 <= m < self.shape@.len() implies src_idx@[m]
                    < self.shape@[m] by {
                    let d = inv@[m] as int;
                }
            }
            let p = crate::chunk_arr::ravel_index(src_idx.as_slice(), self.shape.as_slice());
            elems.push_elem(self.elems.get_elem(p));
            k += 1;
        }
        let out = NDArr { shape: out_shape, data_type: self.data_type, elems };
        proof {
            ElemBuf::lemma_count(out.elems.size as nat, n as nat);
            assert forall|idx: Seq<u64>| in_bounds(idx, self.shape@) implies out.at(
                permute(idx, order@),
            ) == #[trigger] self.at(idx) by {
                let j = permute(idx, order@);
                assert forall|d: int| 0 <= d < out.shape@.len() implies j[d] < out.shape@[d] by {
                }
                crate::chunk_arr::lemma_ravel_bound(j, out.shape@);
                crate::chunk_arr::lemma_unravel_ravel(j, out.shape@);
                assert(permute(j, inv@) =~= idx);
            }
            self.lemma_view();
            lemma_inverse_of(order@);
            let m = self@;
            let os = permute(m.shape, order@);
            let io = inverse_of(order@);
            let f = |k: int| m.at(permute(unravel(k as nat, os), io));
            assert forall|k: int| 0 <= k < n implies (#[trigger] f(k)).len() == m.es() && out.elems@[k]
                == f(k) by {
                crate::chunk_arr::lemma_ravel_unravel(k as nat, os);
                let j = unravel(k as nat, os);
                let src = permute(j, io);
                assert forall|a: int| 0 <= a < m.shape.len() implies src[a] < m.shape[a] by {
                    let d = io[a] as int;
                }
                crate::chunk_arr::lemma_ravel_bound(src, m.shape);
                ElemBuf::lemma_elem_range(m.es(), product(m.shape), ravel(src, m.shape) as int);
            }
            ArrayModel::lemma_from_elems(os, self.data_type, f);
            out.lemma_is_model(m.permute(order@));
        }
        out
    }
}

/// What position `q` of an array holds while a region of it is being
/// overwritten and the first `j` elements of the source are in place.
pub open spec fn assigned_elem(
    old_elems: Seq<Seq<u8>>,
    src_elems: Seq<Seq<u8>>,
    shape: Seq<u64>,
    r: Seq<ArraySlice>,
    j: nat,
    q: int,
) -> Seq<u8> {
    let idx = unravel(q as nat, shape);
    if in_region(idx, r) && ravel(unshift(idx, r), shapes_of(r)) < j {
        src_elems[ravel(unshift(idx, r), shapes_of(r)) as int]
    } else {
        old_elems[q]
    }
}

/// A permuted shape holds as many cells as the shape itself.
pub proof fn lemma_product_permute(shape: Seq<u64>, order: Seq<usize>, inv: Seq<usize>)
    requires
        order.len() == shape.len(),
        is_inverse(inv, order),
    ensures
        product(permute(shape, order)) == product(shape),
    decreases shape.len(),
{
    if shape.len() > 0 {
        let n = shape.len() as int;
        // the position at which the last axis of `shape` stands in the result
        let t = inv[n - 1] as int;
        let out = permute(shape, order);
        // drop axis n - 1 from the shape and position t from the order
        let shape1 = shape.drop_last();
        let order1 = Seq::new((n - 1) as nat, |d: int| if d < t { order[d] } else { order[d + 1] });
        let inv1 = Seq::new(
            (n - 1) as nat,
            |m: int| if inv[m] < t { inv[m] } else { (inv[m] - 1) as usize },
        );
        assert forall|d: int| 0 <= d < n - 1 implies #[trigger] order1[d] < n - 1
            && inv1[order1[d] as int] == d by {
            let dd = if d < t { d } else { d + 1 };
            if order[dd] == n - 1 {
            }
        }
        assert forall|m: int| 0 <= m < n - 1 implies #[trigger] inv1[m] < n - 1
            && order1[inv1[m] as int] == m by {
            if inv[m] == t {
            }
        }
        lemma_product_permute(shape1, order1, inv1);
        let out1 = permute(shape1, order1);
        assert(out.remove(t) =~= out1);
        lemma_product_remove(out, t);
    }
}

/// The product of a shape is the product of the shape without one axis,
/// times that axis.
pub proof fn lemma_product_remove(shape: Seq<u64>, t: int)
    requires
        0 <= t < shape.len(),
    ensures
        product(shape) == product(shape.remove(t)) * (shape[t] as nat),
    decreases shape.len(),
{
    if t == shape.len() - 1 {
    } else {
        lemma_product_remove(shape.drop_last(), t);
        assert(shape.remove(t).drop_last() =~= shape.drop_last().remove(t));
        let a = product(shape.drop_last().remove(t));
        let x = shape[t] as nat;
        let y = shape.last() as nat;
        assert((a * x) * y == (a * y) * x) by (nonlinear_arith);
    }
}

/// Whether two byte strings are equal.
pub fn bytes_equal(a: &[u8], b: &[u8]) -> (r: bool)
    ensures
        r == (a@ == b@),
{
    if a.len() != b.len() {
        return false;
    }
    let mut i: usize = 0;
    while i < a.len()
        invariant
            a@.len() == b@.len(),
            i <= a@.len(),
            forall|j: int| 0 <= j < i ==> a@[j] == b@[j],
        decreases a@.len() - i,
    {
        if a[i] != b[i] {
            return false;
        }
        i += 1;
    }
    assert(a@ =~= b@);
    true
}

/// Computes the cell that lies `idx` behind the region's first cell.
pub fn shift_index(idx: &[u64], region: &ArrayRegion) -> (out: Vec<u64>)
    requires
        idx@.len() == region@.len(),
        forall|d: int| 0 <= d < idx@.len() ==> idx@[d] + (#[trigger] region@[d]).offset <= u64::MAX,
    ensures
        out@ == shift(idx@, region@),
{
    let mut out: Vec<u64> = Vec::new();
    let mut d: usize = 0;
    while d < idx.len()
        invariant
            idx@.len() == region@.len(),
            forall|e: int|
                0 <= e < idx@.len() ==> idx@[e] + (#[trigger] region@[e]).offset <= u64::MAX,
            d <= idx@.len(),
            out@.len() == d,
            forall|e: int| 0 <= e < d ==> out@[e] == idx@[e] + region@[e].offset,
        decreases idx@.len() - d,
    {
        out.push(idx[d] + region.slices[d].offset);
        d += 1;
    }
    out
}

/// Takes the entries of `x` in the given order of axes.
pub fn permute_index(x: &[u64], order: &[usize]) -> (out: Vec<u64>)
    requires
        forall|d: int| 0 <= d < order@.len() ==> #[trigger] order@[d] < x@.len(),
    ensures
        out@ == permute(x@, order@),
{
    let mut out: Vec<u64> = Vec::new();
    let mut d: usize = 0;
    while d < order.len()
        invariant
            forall|e: int| 0 <= e < order@.len() ==> #[trigger] order@[e] < x@.len(),
            d <= order@.len(),
            out@.len() == d,
            forall|e: int| 0 <= e < d ==> out@[e] == x@[order@[e] as int],
        decreases order@.len() - d,
    {
        out.push(x[order[d]]);
        d += 1;
    }
    out
}

/// The permutation that undoes `p`.
pub fn reverse_permutation(p: &[usize]) -> (inv: Vec<usize>)
    requires
        is_permutation(p@),
    ensures
        is_inverse(inv@, p@),
        is_permutation(inv@),
{
    let n = p.len();
    let mut inv: Vec<usize> = Vec::new();
    let mut i: usize = 0;
    while i < n
        invariant
            n == p@.len(),
            i <= n,
            inv@.len() == i,
        decreases n - i,
    {
        inv.push(0);
        i += 1;
    }
    let mut d: usize = 0;
    while d < n
        invariant
            n == p@.len(),
            is_permutation(p@),
            d <= n,
            inv@.len() == n,
            forall|e: int| 0 <= e < d ==> inv@[#[trigger] p@[e] as int] == e,
        decreases n - d,
    {
        inv.set(p[d], d);
        d += 1;
    }
    proof {
        // every axis is hit: `p` maps 0..n into 0..n without repetition
        lemma_permutation_onto(p@);
        assert forall|m: int| 0 <= m < n implies #[trigger] inv@[m] < n && p@[inv@[m] as int]
            == m by {
            assert(names_axis(p@, m));
            let e = choose|e: int| 0 <= e < n && #[trigger] p@[e] == m;
        }
        assert forall|a: int, b: int| 0 <= a < n && 0 <= b < n && a != b implies inv@[a]
            != inv@[b] by {
        }
    }
    inv
}

/// A permutation hits every axis.
pub proof fn lemma_permutation_onto(p: Seq<usize>)
    requires
        is_permutation(p),
    ensures
        forall|m: int| 0 <= m < p.len() ==> #[trigger] names_axis(p, m),
{
    let n = p.len();
    let image = Set::new(|m: int| exists|e: int| 0 <= e < n && #[trigger] p[e] == m);
    let dom = Set::new(|e: int| 0 <= e < n);
    vstd::set_lib::lemma_int_range(0, n as int);
    assert(dom =~= vstd::set_lib::set_int_range(0, n as int));
    let f = |e: int| p[e] as int;
    assert(image =~= dom.map(f)) by {
        assert forall|m: int| image.contains(m) <==> dom.map(f).contains(m) by {
            if image.contains(m) {
                let e = choose|e: int| 0 <= e < n && #[trigger] p[e] == m;
                assert(dom.contains(e) && f(e) == m);
            }
            if dom.map(f).contains(m) {
                let e = choose|e: int| dom.contains(e) && f(e) == m;
            }
        }
    }
    assert(vstd::relations::injective_on(f, dom)) by {
        assert forall|a: int, b: int| dom.contains(a) && dom.contains(b) && #[trigger] f(a)
            == #[trigger] f(b) implies a == b by {
            if a != b {
            }
        }
    }
    vstd::set_lib::lemma_map_size(dom, image, f);
    assert(image.subset_of(dom)) by {
        assert forall|m: int| image.contains(m) implies dom.contains(m) by {
            let e = choose|e: int| 0 <= e < n && #[trigger] p[e] == m;
        }
    }
    vstd::set_lib::lemma_subset_equality(image, dom);
    assert forall|m: int| 0 <= m < n implies #[trigger] names_axis(p, m) by {
        assert(image.contains(m));
    }
}

/// Whether some entry of `p` is the axis `m`.
pub open spec fn names_axis(p: Seq<usize>, m: int) -> bool {
    exists|e: int| 0 <= e < p.len() && #[trigger] p[e] == m
}

/// An array as a value of mathematics: its shape, the type of its elements
/// and its bytes.
pub struct ArrayModel {
    pub shape: Seq<u64>,
    pub data_type: DataType,
    pub bytes: Seq<u8>,
}

impl ArrayModel {
    /// Number of bytes of an element.
    pub open spec fn es(self) -> nat {
        self.data_type.spec_nbytes()
    }

    pub open spec fn wf(self) -> bool {
        &&& self.es() > 0
        &&& self.bytes.len() == product(self.shape) * self.es()
    }

    /// Bytes of the element at position `k` of the C-order layout.
    pub open spec fn elem(self, k: int) -> Seq<u8> {
        self.bytes.subrange(k * self.es(), k * self.es() + self.es())
    }

    /// Bytes of the element at the cell `idx`.
    pub open spec fn at(self, idx: Seq<u64>) -> Seq<u8> {
        self.elem(ravel(idx, self.shape) as int)
    }

    /// The array of the given shape and type whose element at position `k`
    /// is `f(k)`.
    pub open spec fn from_elems(
        shape: Seq<u64>,
        data_type: DataType,
        f: spec_fn(int) -> Seq<u8>,
    ) -> ArrayModel {
        ArrayModel {
            shape,
            data_type,
            bytes: Seq::new(
                product(shape) * data_type.spec_nbytes(),
                |t: int| byte_of(f, data_type.spec_nbytes(), t),
            ),
        }
    }

    /// The part of the array that lies in the region.
    pub open spec fn slice(self, r: Seq<ArraySlice>) -> ArrayModel {
        ArrayModel::from_elems(
            shapes_of(r),
            self.data_type,
            |k: int| self.at(shift(unravel(k as nat, shapes_of(r)), r)),
        )
    }

    /// The array with the region overwritten by `src`.
    pub open spec fn assign(self, r: Seq<ArraySlice>, src: ArrayModel) -> ArrayModel {
        ArrayModel::from_elems(
            self.shape,
            self.data_type,
            |q: int|
                {
                    let idx = unravel(q as nat, self.shape);
                    if in_region(idx, r) {
                        src.at(unshift(idx, r))
                    } else {
                        self.elem(q)
                    }
                },
        )
    }

    /// The array with its axes in the given order.
    pub open spec fn permute(self, order: Seq<usize>) -> ArrayModel {
        ArrayModel::from_elems(
            permute(self.shape, order),
            self.data_type,
            |k: int|
                self.at(permute(unravel(k as nat, permute(self.shape, order)), inverse_of(order))),
        )
    }

    /// The array of the given shape whose elements all are `fill`.
    pub open spec fn filled(shape: Seq<u64>, data_type: DataType, fill: Seq<u8>) -> ArrayModel {
        ArrayModel::from_elems(shape, data_type, |k: int| fill)
    }

    /// Whether every element is `fill`.
    pub open spec fn all_equal_to(self, fill: Seq<u8>) -> bool {
        forall|k: int| 0 <= k < product(self.shape) ==> #[trigger] self.elem(k) == fill
    }

    /// An array built from elements of the right size is well formed and
    /// holds these elements.
    pub proof fn lemma_from_elems(shape: Seq<u64>, data_type: DataType, f: spec_fn(int) -> Seq<u8>)
        requires
            data_type.spec_nbytes() > 0,
            forall|k: int| 0 <= k < product(shape) ==> (#[trigger] f(k)).len() == data_type.spec_nbytes(),
        ensures
            ArrayModel::from_elems(shape, data_type, f).wf(),
            forall|k: int|
                0 <= k < product(shape) ==> #[trigger] ArrayModel::from_elems(
                    shape,
                    data_type,
                    f,
                ).elem(k) == f(k),
    {
        let m = ArrayModel::from_elems(shape, data_type, f);
        let es = data_type.spec_nbytes();
        let n = product(shape);
        assert forall|k: int| 0 <= k < n implies #[trigger] m.elem(k) == f(k) by {
            ElemBuf::lemma_elem_range(es, n, k);
            assert forall|b: int| 0 <= b < es implies m.elem(k)[b] == f(k)[b] by {
                let t = k * es + b;
                assert(t / (es as int) == k && t % (es as int) == b) by (nonlinear_arith)
                    requires
                        t == k * es + b,
                        0 <= b < es,
                ;
            }
        }
    }

    /// Arrays of one shape and type with the same elements are equal.
    pub proof fn lemma_ext(a: ArrayModel, b: ArrayModel)
        requires
            a.wf(),
            b.wf(),
            a.shape == b.shape,
            a.data_type == b.data_type,
            forall|k: int| 0 <= k < product(a.shape) ==> #[trigger] a.elem(k) == b.elem(k),
        ensures
            a == b,
    {
        let es = a.es();
        let n = product(a.shape);
        assert forall|t: int| 0 <= t < a.bytes.len() implies a.bytes[t] == b.bytes[t] by {
            let k = t / (es as int);
            let r = t % (es as int);
            vstd::arithmetic::div_mod::lemma_fundamental_div_mod(t, es as int);
            vstd::arithmetic::div_mod::lemma_mod_bound(t, es as int);
            vstd::arithmetic::div_mod::lemma_div_pos_is_pos(t, es as int);
            assert(k < n) by (nonlinear_arith)
                requires
                    t < n * es,
                    t == es * k + r,
                    r >= 0,
                    es > 0,
            ;
            ElemBuf::lemma_elem_range(es, n, k);
            assert(a.elem(k)[r] == a.bytes[t]);
        }
        assert(a.bytes =~= b.bytes);
    }
}

/// Byte `t` of the bytes that hold the elements `f(0)`, `f(1)`, ... of `es`
/// bytes each.
pub open spec fn byte_of(f: spec_fn(int) -> Seq<u8>, es: nat, t: int) -> u8 {
    if es == 0 {
        0
    } else {
        f(t / (es as int))[t % (es as int)]
    }
}

/// Position of the axis `m` in `order`.
pub open spec fn position_of(order: Seq<usize>, m: int) -> usize {
    if names_axis(order, m) {
        (choose|e: int| 0 <= e < order.len() && #[trigger] order[e] == m) as usize
    } else {
        0
    }
}

/// The order of axes that undoes `order`.
pub open spec fn inverse_of(order: Seq<usize>) -> Seq<usize> {
    Seq::new(order.len(), |m: int| position_of(order, m))
}

/// A permutation has exactly one inverse.
pub proof fn lemma_inverse_of(order: Seq<usize>)
    requires
        is_permutation(order),
    ensures
        is_inverse(inverse_of(order), order),
        is_permutation(inverse_of(order)),
        forall|inv: Seq<usize>| is_inverse(inv, order) ==> inv == inverse_of(order),
        inverse_of(inverse_of(order)) == order,
{
    lemma_permutation_onto(order);
    let i0 = inverse_of(order);
    assert forall|m: int| 0 <= m < order.len() implies #[trigger] i0[m] < order.len()
        && order[i0[m] as int] == m by {
    }
    assert forall|d: int| 0 <= d < order.len() implies i0[#[trigger] order[d] as int] == d by {
        let m = order[d] as int;
        if i0[m] != d {
        }
    }
    assert forall|inv: Seq<usize>| is_inverse(inv, order) implies inv == i0 by {
        assert forall|m: int| 0 <= m < order.len() implies inv[m] == i0[m] by {
            if inv[m] != i0[m] {
            }
        }
    }
    assert forall|a: int, b: int|
        0 <= a < i0.len() && 0 <= b < i0.len() && a != b implies i0[a] != i0[b] by {
    }
    lemma_permutation_onto(i0);
    let i1 = inverse_of(i0);
    assert forall|d: int| 0 <= d < order.len() implies i1[d] == order[d] by {
        assert(i0[i1[d] as int] == d);
        assert(i0[order[d] as int] == d);
        if i1[d] != order[d] {
            assert(i0[i1[d] as int] != i0[order[d] as int]);
        }
    }
    assert(i1 =~= order);
}

impl View for NDArr {
    type V = ArrayModel;

    open spec fn view(&self) -> ArrayModel {
        ArrayModel { shape: self.shape@, data_type: self.data_type, bytes: self.elems.bytes@ }
    }
}

impl NDArr {
    /// A well-formed array is a well-formed value, cell by cell.
    pub proof fn lemma_view(&self)
        requires
            self.wf(),
        ensures
            self@.wf(),
            self.elems@.len() == product(self.shape@),
            forall|k: int| 0 <= k < product(self.shape@) ==> #[trigger] self.elems@[k] == self@.elem(k),
            forall|idx: Seq<u64>| in_bounds(idx, self.shape@) ==> #[trigger] self.at(idx) == self@.at(idx),
    {
        assert forall|idx: Seq<u64>| in_bounds(idx, self.shape@) implies #[trigger] self.at(idx)
            == self@.at(idx) by {
            crate::chunk_arr::lemma_ravel_bound(idx, self.shape@);
        }
    }

    /// The array is the value `m` when it has its shape and type and holds
    /// its elements.
    pub proof fn lemma_is_model(&self, m: ArrayModel)
        requires
            self.wf(),
            m.wf(),
            m.shape == self.shape@,
            m.data_type == self.data_type,
            forall|k: int| 0 <= k < product(self.shape@) ==> #[trigger] self.elems@[k] == m.elem(k),
        ensures
            self@ == m,
    {
        self.lemma_view();
        assert forall|k: int| 0 <= k < product(self.shape@) implies #[trigger] self@.elem(k)
            == m.elem(k) by {
            assert(self.elems@[k] == m.elem(k));
        }
        ArrayModel::lemma_ext(self@, m);
    }
}

/// Putting the axes of an array in another order and then back gives the
/// array itself.
pub proof fn lemma_permute_inverse(m: ArrayModel, order: Seq<usize>)
    requires
        m.wf(),
        is_permutation(order),
        order.len() == m.shape.len(),
    ensures
        m.permute(order).wf(),
        m.permute(order).permute(inverse_of(order)) == m,
{
    lemma_inverse_of(order);
    let io = inverse_of(order);
    let es = m.es();
    let os = permute(m.shape, order);
    lemma_product_permute(m.shape, order, io);
    let f = |k: int| m.at(permute(unravel(k as nat, os), io));
    assert forall|k: int| 0 <= k < product(os) implies (#[trigger] f(k)).len() == es by {
        crate::chunk_arr::lemma_ravel_unravel(k as nat, os);
        let j = unravel(k as nat, os);
        let src = permute(j, io);
        assert forall|a: int| 0 <= a < m.shape.len() implies src[a] < m.shape[a] by {
            let d = io[a] as int;
            assert(j[d] < os[d]);
            assert(order[d] == a);
        }
        crate::chunk_arr::lemma_ravel_bound(src, m.shape);
        ElemBuf::lemma_elem_range(es, product(m.shape), ravel(src, m.shape) as int);
    }
    ArrayModel::lemma_from_elems(os, m.data_type, f);
    let t = m.permute(order);
    assert(t.shape == os);
    let rs = permute(os, io);
    assert(rs =~= m.shape);
    lemma_product_permute(os, io, order);
    let g = |k: int| t.at(permute(unravel(k as nat, rs), inverse_of(io)));
    assert forall|k: int| 0 <= k < product(rs) implies (#[trigger] g(k)).len() == es && g(k)
        == m.elem(k) by {
        crate::chunk_arr::lemma_ravel_unravel(k as nat, rs);
        let i = unravel(k as nat, rs);
        let j = permute(i, order);
        assert forall|d: int| 0 <= d < os.len() implies j[d] < os[d] by {
            assert(order[d] < order.len());
        }
        crate::chunk_arr::lemma_ravel_bound(j, os);
        crate::chunk_arr::lemma_unravel_ravel(j, os);
        let kk = ravel(j, os) as int;
        assert(t.elem(kk) == f(kk));
        assert(permute(j, io) =~= i);
        ElemBuf::lemma_elem_range(es, product(m.shape), k);
    }
    ArrayModel::lemma_from_elems(rs, m.data_type, g);
    let r = t.permute(io);
    ArrayModel::lemma_ext(r, m);
}

} // verus!
