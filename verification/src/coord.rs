use vstd::prelude::*;

verus! {

/// A coordinate or a shape: one `u64` per axis, held inline for the usual
/// small number of axes.
#[verifier::external_body]
#[derive(Debug)]
pub struct GridCoord {
    items: smallvec::SmallVec<[u64; 6]>,
}

/// The entries of a coordinate, axis by axis.
pub uninterp spec fn coord_items(c: GridCoord) -> Seq<u64>;

impl View for GridCoord {
    type V = Seq<u64>;

    open spec fn view(&self) -> Seq<u64> {
        coord_items(*self)
    }
}

/// `SmallVec::from_vec`: the new collection holds the vector's items in the
/// vector's order.
#[verifier::external_body]
fn coord_from_vec(v: Vec<u64>) -> (c: GridCoord)
    ensures
        coord_items(c) == v@,
{
    GridCoord { items: smallvec::SmallVec::from_vec(v) }
}

/// `SmallVec::as_slice`: the slice shows the collection's items in order.
#[verifier::external_body]
fn coord_as_slice(c: &GridCoord) -> (s: &[u64])
    ensures
        s@ == coord_items(*c),
{
    c.items.as_slice()
}

impl Clone for GridCoord {
    fn clone(&self) -> (c: GridCoord)
        ensures
            c@ == self@,
    {
        coord_from_vec(vstd::slice::slice_to_vec(coord_as_slice(self)))
    }
}

impl PartialEq for GridCoord {
    fn eq(&self, other: &GridCoord) -> (b: bool) {
        slices_equal(coord_as_slice(self), coord_as_slice(other))
    }
}

impl vstd::std_specs::cmp::PartialEqSpecImpl for GridCoord {
    open spec fn obeys_eq_spec() -> bool {
        true
    }

    open spec fn eq_spec(&self, other: &GridCoord) -> bool {
        self@ == other@
    }
}

impl Eq for GridCoord {

}

impl GridCoord {
    /// A coordinate with the entries of `v`.
    pub fn from_vec(v: Vec<u64>) -> (c: GridCoord)
        ensures
            c@ == v@,
    {
        coord_from_vec(v)
    }

    /// A coordinate with the entries of `s`.
    pub fn from_slice(s: &[u64]) -> (c: GridCoord)
        ensures
            c@ == s@,
    {
        coord_from_vec(vstd::slice::slice_to_vec(s))
    }

    pub fn as_slice(&self) -> (s: &[u64])
        ensures
            s@ == self@,
    {
        coord_as_slice(self)
    }

    pub fn to_vec(&self) -> (v: Vec<u64>)
        ensures
            v@ == self@,
    {
        vstd::slice::slice_to_vec(coord_as_slice(self))
    }

    pub fn len(&self) -> (n: usize)
        ensures
            n == self@.len(),
    {
        coord_as_slice(self).len()
    }

    pub fn get(&self, i: usize) -> (x: u64)
        requires
            i < self@.len(),
        ensures
            x == self@[i as int],
    {
        coord_as_slice(self)[i]
    }

    /// Whether both coordinates have the same entries.
    pub fn same(&self, other: &GridCoord) -> (b: bool)
        ensures
            b == (self@ == other@),
    {
        slices_equal(self.as_slice(), other.as_slice())
    }
}

/// Whether two slices hold the same entries in the same order.
pub fn slices_equal(a: &[u64], b: &[u64]) -> (r: bool)
    ensures
        r == (a@ == b@),
{
    if a.len() != b.len() {
        return false;
    }
    let mut i: usize = 0;
    while i < a.len()
        invariant
            a@.len() == b@.len(),
            i <= a@.len(),
            forall|j: int| 0 <= j < i ==> a@[j] == b@[j],
        decreases a@.len() - i,
    {
        if a[i] != b[i] {
            return false;
        }
        i += 1;
    }
    assert(a@ =~= b@);
    true
}

/// Product of the entries of a shape; 1 for the empty shape.
pub open spec fn product(shape: Seq<u64>) -> nat
    decreases shape.len(),
{
    if shape.len() == 0 {
        1
    } else {
        product(shape.drop_last()) * (shape.last() as nat)
    }
}

/// A shape without zero entries has a positive product, and the product of
/// every prefix is at most the product of the whole.
pub proof fn lemma_product_prefix(shape: Seq<u64>, n: int)
    requires
        0 <= n <= shape.len(),
        forall|i: int| 0 <= i < shape.len() ==> shape[i] > 0,
    ensures
        0 < product(shape.take(n)) <= product(shape),
    decreases shape.len() - n,
{
    if n == shape.len() {
        assert(shape.take(n) =~= shape);
        lemma_product_positive(shape);
    } else {
        lemma_product_prefix(shape, n + 1);
        assert(shape.take(n + 1).drop_last() =~= shape.take(n));
        let p = product(shape.take(n));
        let x = shape[n] as nat;
        assert(shape.take(n + 1).last() == shape[n]);
        assert(product(shape.take(n + 1)) == p * x);
        lemma_product_positive(shape.take(n));
        assert(p <= p * x) by (nonlinear_arith)
            requires
                x >= 1,
        ;
    }
}

pub proof fn lemma_product_positive(shape: Seq<u64>)
    requires
        forall|i: int| 0 <= i < shape.len() ==> shape[i] > 0,
    ensures
        product(shape) > 0,
    decreases shape.len(),
{
    if shape.len() > 0 {
        lemma_product_positive(shape.drop_last());
        let p = product(shape.drop_last());
        let x = shape.last() as nat;
        assert(p * x > 0) by (nonlinear_arith)
            requires
                p > 0,
                x > 0,
        ;
    }
}

/// Number of elements of an array of the given shape, where it fits in
/// `usize`.
pub fn checked_numel(shape: &[u64]) -> (r: Option<usize>)
    ensures
        product(shape@) <= usize::MAX ==> r == Some(product(shape@) as usize),
        product(shape@) > usize::MAX ==> r.is_none(),
{
    let mut i: usize = 0;
    let mut has_zero = false;
    while i < shape.len()
        invariant
            i <= shape@.len(),
            has_zero == exists|j: int| 0 <= j < i && shape@[j] == 0,
        decreases shape@.len() - i,
    {
        if shape[i] == 0 {
            has_zero = true;
        }
        i += 1;
    }
    if has_zero {
        proof {
            let j = choose|j: int| 0 <= j < shape@.len() && shape@[j] == 0;
            lemma_product_zero(shape@, j);
        }
        return Some(0);
    }
    let mut acc: usize = 1;
    let mut k: usize = 0;
    while k < shape.len()
        invariant
            k <= shape@.len(),
            acc == product(shape@.take(k as int)),
            forall|j: int| 0 <= j < shape@.len() ==> shape@[j] > 0,
        decreases shape@.len() - k,
    {
        let x: u64 = shape[k];
        proof {
            lemma_product_prefix(shape@, k as int + 1);
            assert(shape@.take(k as int + 1).drop_last() =~= shape@.take(k as int));
            assert(shape@.take(k as int + 1).last() == x);
            lemma_product_prefix(shape@, k as int);
            assert((acc as nat) * (x as nat) >= x) by (nonlinear_arith)
                requires
                    acc >= 1,
            ;
        }
        if x > usize::MAX as u64 {
            return None;
        }
        match acc.checked_mul(x as usize) {
            Some(p) => {
                acc = p;
            },
            None => {
                return None;
            },
        }
        k += 1;
    }
    proof {
        assert(shape@.take(k as int) =~= shape@);
    }
    Some(acc)
}

pub proof fn lemma_product_zero(shape: Seq<u64>, j: int)
    requires
        0 <= j < shape.len(),
        shape[j] == 0,
    ensures
        product(shape) == 0,
    decreases shape.len(),
{
    if j == shape.len() - 1 {
        assert(product(shape.drop_last()) * 0 == 0);
    } else {
        lemma_product_zero(shape.drop_last(), j);
        assert(0 * (shape.last() as nat) == 0);
    }
}

} // verus!
