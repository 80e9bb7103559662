use crate::chunk_arr::in_bounds;
use crate::codecs::ArrayRepr;
use crate::coord::GridCoord;
use crate::ndarr::is_permutation;
use crate::ndarr::permute;
use crate::ndarr::NDArr;
use vstd::prelude::*;

verus! {

/// Why a list of axes is no permutation.
#[derive(Clone, Copy, Debug, PartialEq, Eq, Structural)]
pub enum PermutationError {
    /// An entry names an axis that does not exist, so another axis is
    /// missing.
    SkipsElements,
    /// An entry names an axis that an earlier entry names too.
    RepeatedElements,
}

/// Checks the entries of `perm` from position `i` on, in order, and fails
/// on the first that is out of range or repeats an earlier one.
pub open spec fn check_permutation_from(perm: Seq<usize>, i: int) -> Result<(), PermutationError>
    decreases perm.len() - i,
{
    if i < 0 || i >= perm.len() {
        Ok(())
    } else if perm[i] >= perm.len() {
        Err(PermutationError::SkipsElements)
    } else if perm.take(i).contains(perm[i]) {
        Err(PermutationError::RepeatedElements)
    } else {
        check_permutation_from(perm, i + 1)
    }
}

/// The check passes exactly on permutations.
pub proof fn lemma_check_permutation(perm: Seq<usize>, i: int)
    requires
        0 <= i <= perm.len(),
        perm.len() <= usize::MAX,
        forall|d: int| 0 <= d < i ==> #[trigger] perm[d] < perm.len(),
        forall|d: int, e: int| 0 <= d < i && 0 <= e < i && d != e ==> perm[d] != perm[e],
    ensures
        check_permutation_from(perm, i) is Ok <==> is_permutation(perm),
    decreases perm.len() - i,
{
    if i < perm.len() {
        if perm[i] >= perm.len() {
        } else if perm.take(i).contains(perm[i]) {
            let e = choose|e: int| 0 <= e < perm.take(i).len() && perm.take(i)[e] == perm[i];
            assert(perm[e] == perm[i]);
        } else {
            assert forall|d: int, e: int|
                0 <= d < i + 1 && 0 <= e < i + 1 && d != e implies perm[d] != perm[e] by {
                if d == i {
                    assert(perm.take(i)[e] == perm[e]);
                }
                if e == i {
                    assert(perm.take(i)[d] == perm[d]);
                }
            }
            lemma_check_permutation(perm, i + 1);
        }
    }
}

/// Checks that `perm` names every axis `0..n` exactly once.
pub fn validate_permutation(perm: &[usize]) -> (r: Result<(), PermutationError>)
    ensures
        r == check_permutation_from(perm@, 0),
        r is Ok <==> is_permutation(perm@),
{
    let n = perm.len();
    proof {
        lemma_check_permutation(perm@, 0);
    }
    let mut seen: Vec<bool> = Vec::new();
    let mut k: usize = 0;
    while k < n
        invariant
            k <= n,
            seen@.len() == k,
            forall|m: int| 0 <= m < k ==> !seen@[m],
        decreases n - k,
    {
        seen.push(false);
        k += 1;
    }
    let mut i: usize = 0;
    while i < n
        invariant
            n == perm@.len(),
            i <= n,
            seen@.len() == n,
            forall|m: int| 0 <= m < n ==> (#[trigger] seen@[m] <==> perm@.take(i as int).contains(
                m as usize,
            )),
            check_permutation_from(perm@, 0) == check_permutation_from(perm@, i as int),
        decreases n - i,
    {
        let item: usize = perm[i];
        if item >= n {
            return Err(PermutationError::SkipsElements);
        }
        if seen[item] {
            return Err(PermutationError::RepeatedElements);
        }
        seen.set(item, true);
        proof {
            let before = perm@.take(i as int);
            let after = perm@.take(i as int + 1);
            assert(after =~= before.push(item));
            assert forall|m: int| 0 <= m < n implies (#[trigger] seen@[m] <==> after.contains(
                m as usize,
            )) by {
                if after.contains(m as usize) {
                    let e = choose|e: int| 0 <= e < after.len() && after[e] == m as usize;
                    if e < i {
                        assert(before[e] == m as usize);
                    }
                }
                if before.contains(m as usize) {
                    let e = choose|e: int| 0 <= e < before.len() && before[e] == m as usize;
                    assert(after[e] == m as usize);
                }
                if m == item {
                    assert(after[i as int] == item);
                }
            }
        }
        i += 1;
    }
    Ok(())
}

/// Whether `out` is `a` with its axes in the given order: axis `d` of `out`
/// is axis `order[d]` of `a`, and every element keeps its place along every
/// axis.
pub open spec fn is_permuted(out: &NDArr, a: &NDArr, order: Seq<usize>) -> bool {
    &&& out.wf()
    &&& a.wf()
    &&& order.len() == a.shape@.len()
    &&& out.shape@ == permute(a.shape@, order)
    &&& out.data_type == a.data_type
    &&& forall|idx: Seq<u64>|
        in_bounds(idx, a.shape@) ==> out.at(permute(idx, order)) == #[trigger] a.at(idx)
}

/// Permuting the axes loses nothing: two arrays that have the same
/// permuted array are the same. So decoding what was encoded gives the
/// array back.
pub proof fn lemma_transpose_roundtrip(t: &NDArr, a: &NDArr, r: &NDArr, order: Seq<usize>)
    requires
        is_permutation(order),
        is_permuted(t, a, order),
        is_permuted(t, r, order),
    ensures
        r.same(a),
{
    crate::ndarr::lemma_permutation_onto(order);
    assert forall|m: int| 0 <= m < a.shape@.len() implies a.shape@[m] == r.shape@[m] by {
        assert(crate::ndarr::names_axis(order, m));
        let d = choose|d: int| 0 <= d < order.len() && #[trigger] order[d] == m;
        assert(permute(a.shape@, order)[d] == a.shape@[m]);
        assert(permute(r.shape@, order)[d] == r.shape@[m]);
    }
    assert(a.shape@ =~= r.shape@);
    assert forall|idx: Seq<u64>| in_bounds(idx, r.shape@) implies #[trigger] r.at(idx) == a.at(
        idx,
    ) by {
        assert(t.at(permute(idx, order)) == a.at(idx));
        assert(t.at(permute(idx, order)) == r.at(idx));
    }
    NDArr::lemma_same_by_at(r, a);
}

/// The codec that stores a chunk with its axes in another order.
#[derive(Debug)]
pub struct TransposeCodec {
    pub order: Vec<usize>,
}

impl Clone for TransposeCodec {
    fn clone(&self) -> (r: TransposeCodec)
        ensures
            r.order@ == self.order@,
    {
        TransposeCodec { order: self.order.clone() }
    }
}

impl TransposeCodec {
    pub open spec fn wf(&self) -> bool {
        is_permutation(self.order@)
    }

    /// The codec that reverses the order of `ndim` axes.
    pub fn new_transpose(ndim: usize) -> (c: TransposeCodec)
        ensures
            c.wf(),
            c.order@.len() == ndim,
            forall|d: int| 0 <= d < ndim ==> c.order@[d] == ndim - 1 - d,
    {
        let mut order: Vec<usize> = Vec::new();
        let mut d: usize = 0;
        while d < ndim
            invariant
                d <= ndim,
                order@.len() == d,
                forall|e: int| 0 <= e < d ==> order@[e] == ndim - 1 - e,
            decreases ndim - d,
        {
            order.push(ndim - 1 - d);
            d += 1;
        }
        TransposeCodec { order }
    }

    /// The codec for the given order of axes, where it is a permutation.
    pub fn new(perm: Vec<usize>) -> (r: Result<TransposeCodec, PermutationError>)
        ensures
            r is Ok <==> is_permutation(perm@),
            r matches Ok(c) ==> c.order@ == perm@,
            r matches Err(e) ==> check_permutation_from(perm@, 0) == Err::<(), PermutationError>(
                e,
            ),
    {
        let s = TransposeCodec { order: perm };
        match s.validate() {
            Ok(()) => Ok(s),
            Err(e) => Err(e),
        }
    }

    pub fn validate(&self) -> (r: Result<(), PermutationError>)
        ensures
            r == check_permutation_from(self.order@, 0),
            r is Ok <==> self.wf(),
    {
        validate_permutation(self.order.as_slice())
    }

    pub fn ndim(&self) -> (n: usize)
        ensures
            n == self.order@.len(),
    {
        self.order.len()
    }

    pub fn maybe_ndim(&self) -> (n: Option<usize>)
        ensures
            n is Some,
            n->Some_0 == self.order@.len(),
    {
        Some(self.order.len())
    }

    /// The chunk with its axes in the codec's order.
    pub fn encode(&self, decoded: &NDArr) -> (out: NDArr)
        requires
            self.wf(),
            decoded.wf(),
            decoded.shape@.len() == self.order@.len(),
        ensures
            out.wf(),
            out@ == decoded@.permute(self.order@),
            is_permuted(&out, decoded, self.order@),
    {
        decoded.permuted_axes(self.order.as_slice())
    }

    /// The chunk whose encoding is `encoded`.
    pub fn decode(&self, encoded: &NDArr) -> (out: NDArr)
        requires
            self.wf(),
            encoded.wf(),
            encoded.shape@.len() == self.order@.len(),
        ensures
            out.wf(),
            out@ == encoded@.permute(crate::ndarr::inverse_of(self.order@)),
            is_permuted(encoded, &out, self.order@),
    {
        let inv = crate::ndarr::reverse_permutation(self.order.as_slice());
        let out = encoded.permuted_axes(inv.as_slice());
        proof {
            crate::ndarr::lemma_inverse_of(self.order@);
            let order = self.order@;
            assert(out.shape@ == permute(encoded.shape@, inv@));
            assert(permute(out.shape@, order) =~= encoded.shape@);
            assert forall|idx: Seq<u64>| in_bounds(idx, out.shape@) implies encoded.at(
                permute(idx, order),
            ) == #[trigger] out.at(idx) by {
                let e = permute(idx, order);
                assert forall|d: int| 0 <= d < encoded.shape@.len() implies e[d]
                    < encoded.shape@[d] by {
                    assert(order[d] < order.len());
                }
                assert(in_bounds(e, encoded.shape@));
                assert(out.at(permute(e, inv@)) == encoded.at(e));
                assert(permute(e, inv@) =~= idx);
            }
        }
        out
    }

    /// Shape and fill value of the encoded chunk.
    pub fn compute_encoded_representation_type(&self, decoded_repr: ArrayRepr) -> (r: ArrayRepr)
        requires
            self.wf(),
            decoded_repr.shape@.len() == self.order@.len(),
        ensures
            r.shape@ == permute(decoded_repr.shape@, self.order@),
            r.data_type == decoded_repr.data_type,
            r.fill_value@ == decoded_repr.fill_value@,
    {
        let shape = crate::ndarr::permute_index(
            decoded_repr.shape.as_slice(),
            self.order.as_slice(),
        );
        ArrayRepr {
            shape: GridCoord::from_vec(shape),
            data_type: decoded_repr.data_type,
            fill_value: decoded_repr.fill_value,
        }
    }

    /// Shape and fill value of the encoded chunk.
    pub fn compute_encoded_size(&self, decoded_repr: ArrayRepr) -> (r: ArrayRepr)
        requires
            self.wf(),
            decoded_repr.shape@.len() == self.order@.len(),
        ensures
            r.shape@ == permute(decoded_repr.shape@, self.order@),
            r.data_type == decoded_repr.data_type,
            r.fill_value@ == decoded_repr.fill_value@,
    {
        self.compute_encoded_representation_type(decoded_repr)
    }
}

} // verus!
