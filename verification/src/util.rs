use vstd::prelude::*;

verus! {

/// Two dimensionalities that were expected to agree and do not.
#[derive(Clone, Copy, Debug, PartialEq, Eq, Structural)]
pub struct DimensionMismatch {
    pub ref_ndim: usize,
    pub other_ndim: usize,
}

impl DimensionMismatch {
    /// `Ok` exactly when both dimensionalities agree; otherwise the error
    /// carries both of them.
    pub fn check_coords(coord_ndim: usize, array_ndim: usize) -> (r: Result<(), DimensionMismatch>)
        ensures
            coord_ndim == array_ndim ==> r == Ok::<(), DimensionMismatch>(()),
            coord_ndim != array_ndim ==> r == Err::<(), DimensionMismatch>(
                (DimensionMismatch { ref_ndim: coord_ndim, other_ndim: array_ndim }),
            ),
    {
        if coord_ndim == array_ndim {
            Ok(())
        } else {
            Err(DimensionMismatch { ref_ndim: coord_ndim, other_ndim: array_ndim })
        }
    }

    /// Position of the first entry of `others` that differs from `reference`,
    /// or the length of `others` when there is none.
    pub open spec fn first_mismatch(reference: usize, others: Seq<usize>) -> int
        decreases others.len(),
    {
        if others.len() == 0 {
            0
        } else if others[0] != reference {
            0
        } else {
            1 + Self::first_mismatch(reference, others.drop_first())
        }
    }

    pub proof fn lemma_first_mismatch(reference: usize, others: Seq<usize>)
        ensures
            0 <= Self::first_mismatch(reference, others) <= others.len(),
            forall|i: int|
                0 <= i < Self::first_mismatch(reference, others) ==> others[i] == reference,
            Self::first_mismatch(reference, others) < others.len() ==> others[Self::first_mismatch(
                reference,
                others,
            )] != reference,
        decreases others.len(),
    {
        if others.len() > 0 && others[0] == reference {
            let rest = others.drop_first();
            Self::lemma_first_mismatch(reference, rest);
            assert forall|i: int|
                0 <= i < Self::first_mismatch(reference, others) implies others[i] == reference by {
                if i > 0 {
                    assert(others[i] == rest[i - 1]);
                }
            }
            let m = Self::first_mismatch(reference, rest);
            if m < rest.len() {
                assert(rest[m] == others[m + 1]);
            }
        }
    }

    /// Compares every entry of `others` with `reference`, in order, and fails
    /// on the first one that differs.
    pub fn check_many(reference: usize, others: &[usize]) -> (r: Result<(), DimensionMismatch>)
        ensures
            (forall|i: int| 0 <= i < others@.len() ==> others@[i] == reference) ==> r == Ok::<
                (),
                DimensionMismatch,
            >(()),
            !(forall|i: int| 0 <= i < others@.len() ==> others@[i] == reference) ==> r == Err::<
                (),
                DimensionMismatch,
            >(
                (DimensionMismatch {
                    ref_ndim: reference,
                    other_ndim: others@[Self::first_mismatch(reference, others@)],
                }),
            ),
    {
        proof {
            Self::lemma_first_mismatch(reference, others@);
        }
        let mut i: usize = 0;
        while i < others.len()
            invariant
                i <= others@.len(),
                forall|j: int| 0 <= j < i ==> others@[j] == reference,
                i <= Self::first_mismatch(reference, others@) <= others@.len(),
                forall|j: int|
                    0 <= j < Self::first_mismatch(reference, others@) ==> others@[j] == reference,
                Self::first_mismatch(reference, others@) < others@.len() ==> others@[Self::first_mismatch(
                    reference,
                    others@,
                )] != reference,
            decreases others@.len() - i,
        {
            if others[i] != reference {
                return Err(DimensionMismatch { ref_ndim: reference, other_ndim: others[i] });
            }
            i += 1;
        }
        Ok(())
    }
}

/// Accepts only dimensionalities that all agree with `reference`.
pub fn dimpanic(reference: usize, others: &[usize])
    requires
        forall|i: int| 0 <= i < others@.len() ==> others@[i] == reference,
{
}

} // verus!
