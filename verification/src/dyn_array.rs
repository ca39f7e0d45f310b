//! A dense, fixed-dimensionality array: a multi-index `[i_0, .., i_{D-1}]`
//! with `i_k < dims[k]` addresses one element of a flat vector, in
//! little-endian mixed-radix order (dimension 0 varies fastest).

use vstd::prelude::*;

verus! {

/// Product of the first `k` dimensions, `dims[0] * .. * dims[k-1]`.
pub open spec fn prod_prefix(dims: Seq<usize>, k: int) -> int
    decreases k,
{
    if k <= 0 {
        1
    } else {
        prod_prefix(dims, k - 1) * dims[k - 1]
    }
}

/// Number of elements a grid with the given dimensions holds.
pub open spec fn dims_product(dims: Seq<usize>) -> int {
    prod_prefix(dims, dims.len() as int)
}

/// Every component of the multi-index is within its dimension.
pub open spec fn valid_index(dims: Seq<usize>, index: Seq<usize>) -> bool {
    &&& index.len() == dims.len()
    &&& forall|k: int| 0 <= k < dims.len() ==> (#[trigger] index[k]) < dims[k]
}

/// Linearization of the first `k` components:
/// `index[0] * prod_prefix(dims, 0) + .. + index[k-1] * prod_prefix(dims, k-1)`.
pub open spec fn linear_prefix(dims: Seq<usize>, index: Seq<usize>, k: int) -> int
    decreases k,
{
    if k <= 0 {
        0
    } else {
        linear_prefix(dims, index, k - 1) + index[k - 1] * prod_prefix(dims, k - 1)
    }
}

/// The flat offset a multi-index maps to.
pub open spec fn linear_index_of(dims: Seq<usize>, index: Seq<usize>) -> int {
    linear_prefix(dims, index, dims.len() as int)
}

/// Prefix products are never negative.
pub proof fn lemma_prod_prefix_nonneg(dims: Seq<usize>, k: int)
    ensures
        prod_prefix(dims, k) >= 0,
    decreases k,
{
    if k > 0 {
        lemma_prod_prefix_nonneg(dims, k - 1);
        assert(prod_prefix(dims, k - 1) * dims[k - 1] >= 0) by (nonlinear_arith)
            requires
                prod_prefix(dims, k - 1) >= 0,
                dims[k - 1] >= 0,
        ;
    }
}

/// While every dimension in `[k, m)` is positive, prefix products grow.
pub proof fn lemma_prod_prefix_mono(dims: Seq<usize>, k: int, m: int)
    requires
        0 <= k <= m,
        forall|j: int| k <= j < m ==> (#[trigger] dims[j]) >= 1,
    ensures
        prod_prefix(dims, k) <= prod_prefix(dims, m),
    decreases m - k,
{
    if k < m {
        lemma_prod_prefix_mono(dims, k, m - 1);
        lemma_prod_prefix_nonneg(dims, m - 1);
        assert(prod_prefix(dims, m - 1) <= prod_prefix(dims, m - 1) * dims[m - 1])
            by (nonlinear_arith)
            requires
                prod_prefix(dims, m - 1) >= 0,
                dims[m - 1] >= 1,
        ;
    }
}

/// A valid multi-index prefix linearizes below the matching prefix product.
pub proof fn lemma_linear_prefix_bound(dims: Seq<usize>, index: Seq<usize>, k: int)
    requires
        0 <= k <= dims.len(),
        index.len() == dims.len(),
        forall|j: int| 0 <= j < dims.len() ==> (#[trigger] index[j]) < dims[j],
    ensures
        0 <= linear_prefix(dims, index, k) < prod_prefix(dims, k),
    decreases k,
{
    if k == 0 {
        assert(prod_prefix(dims, 0) == 1);
    } else {
        lemma_linear_prefix_bound(dims, index, k - 1);
        let lp = linear_prefix(dims, index, k - 1);
        let pp = prod_prefix(dims, k - 1);
        assert(lp + index[k - 1] * pp < pp * dims[k - 1]) by (nonlinear_arith)
            requires
                0 <= lp < pp,
                0 <= index[k - 1] < dims[k - 1],
        ;
        assert(index[k - 1] * pp >= 0) by (nonlinear_arith)
            requires
                index[k - 1] >= 0,
                pp >= 1,
        ;
    }
}

/// For a two-dimensional grid the element count is width times height.
pub proof fn lemma_dims_product_2(dims: Seq<usize>)
    requires
        dims.len() == 2,
    ensures
        dims_product(dims) == dims[0] * dims[1],
{
    assert(prod_prefix(dims, 1) == prod_prefix(dims, 0) * dims[0]);
    assert(prod_prefix(dims, 0) == 1);
    assert(prod_prefix(dims, 2) == prod_prefix(dims, 1) * dims[1]);
}

/// In two dimensions the flat offset is `x + y * width`.
pub proof fn lemma_linear_index_2(dims: Seq<usize>, index: Seq<usize>)
    requires
        dims.len() == 2,
        index.len() == 2,
    ensures
        linear_index_of(dims, index) == index[0] + index[1] * dims[0],
{
    assert(linear_prefix(dims, index, 1) == linear_prefix(dims, index, 0) + index[0] * prod_prefix(
        dims,
        0,
    ));
    assert(prod_prefix(dims, 1) == prod_prefix(dims, 0) * dims[0]);
}

/// Whether every component of `index` is within the matching dimension;
/// the two slices must have the same length.
pub fn check_index(dims: &[usize], index: &[usize]) -> (r: bool)
    requires
        dims@.len() == index@.len(),
    ensures
        r == valid_index(dims@, index@),
{
    let n = index.len();
    let mut i: usize = 0;
    while i < n
        invariant
            n == index@.len() == dims@.len(),
            0 <= i <= n,
            forall|j: int| 0 <= j < i ==> (#[trigger] index@[j]) < dims@[j],
        decreases n - i,
    {
        if index[i] >= dims[i] {
            return false;
        }
        i = i + 1;
    }
    true
}

/// The flat offset of a valid multi-index, in little-endian mixed-radix
/// order: dimension 0 varies fastest.
pub fn get_index(dims: &[usize], index: &[usize]) -> (r: usize)
    requires
        valid_index(dims@, index@),
        dims_product(dims@) <= usize::MAX,
    ensures
        r == linear_index_of(dims@, index@),
        r < dims_product(dims@),
{
    let n = index.len();
    let mut idx: usize = 0;
    let mut mul: usize = 1;
    let mut i: usize = 0;
    proof {
        lemma_linear_prefix_bound(dims@, index@, 0);
    }
    while i < n
        invariant
            n == index@.len() == dims@.len(),
            0 <= i <= n,
            valid_index(dims@, index@),
            dims_product(dims@) <= usize::MAX,
            mul == prod_prefix(dims@, i as int),
            idx == linear_prefix(dims@, index@, i as int),
            idx < mul,
        decreases n - i,
    {
        proof {
            assert forall|j: int| i <= j < n implies (#[trigger] dims@[j]) >= 1 by {
                assert(index@[j] < dims@[j]);
            }
            lemma_prod_prefix_mono(dims@, i + 1, n as int);
            lemma_linear_prefix_bound(dims@, index@, i + 1);
        }
        let t = index[i] * mul;
        idx = idx + t;
        mul = mul * dims[i];
        i = i + 1;
    }
    proof {
        lemma_linear_prefix_bound(dims@, index@, n as int);
    }
    idx
}

/// A dense array over a fixed list of dimensions, stored flat in
/// little-endian mixed-radix order.
pub struct DynArray<T, const D: usize> {
    dims: [usize; D],
    data: Vec<T>,
}

impl<T, const D: usize> DynArray<T, D> {
    /// The dimension list, as a mathematical sequence.
    pub closed spec fn spec_dims(&self) -> Seq<usize> {
        self.dims@
    }

    /// The stored elements, flat, in linear order.
    pub closed spec fn spec_data(&self) -> Seq<T> {
        self.data@
    }

    /// The flat storage holds exactly one element per grid point.
    pub open spec fn wf(&self) -> bool {
        &&& self.spec_dims().len() == D
        &&& self.spec_data().len() == dims_product(self.spec_dims())
    }

    /// A `Vec` never holds more than `usize::MAX` elements.
    pub proof fn lemma_data_len_bound(&self)
        ensures
            self.spec_data().len() <= usize::MAX,
    {
        vstd::std_specs::vec::axiom_spec_len(&self.data);
    }

    /// The dimension list.
    pub fn dims(&self) -> (r: &[usize])
        ensures
            r@ == self.spec_dims(),
    {
        self.dims.as_slice()
    }

    /// The first dimension.
    pub fn width(&self) -> (r: usize)
        requires
            D >= 1,
        ensures
            r == self.spec_dims()[0],
    {
        self.dims[0]
    }

    /// The second dimension.
    pub fn height(&self) -> (r: usize)
        requires
            D >= 2,
        ensures
            r == self.spec_dims()[1],
    {
        self.dims[1]
    }

    /// The underlying flat storage, in linear order.
    pub fn data(&self) -> (r: &[T])
        ensures
            r@ == self.spec_data(),
    {
        self.data.as_slice()
    }

    /// A borrow of the element a valid multi-index addresses.
    pub fn get(&self, index: &[usize]) -> (r: &T)
        requires
            self.wf(),
            valid_index(self.spec_dims(), index@),
        ensures
            *r == self.spec_data()[linear_index_of(self.spec_dims(), index@)],
    {
        proof {
            self.lemma_data_len_bound();
        }
        let i = get_index(self.dims.as_slice(), index);
        &self.data[i]
    }

    /// Overwrites the element a valid multi-index addresses.
    pub fn set(&mut self, index: &[usize], value: T)
        requires
            old(self).wf(),
            valid_index(old(self).spec_dims(), index@),
        ensures
            final(self).wf(),
            final(self).spec_dims() == old(self).spec_dims(),
            final(self).spec_data() == old(self).spec_data().update(
                linear_index_of(old(self).spec_dims(), index@),
                value,
            ),
    {
        proof {
            self.lemma_data_len_bound();
        }
        let i = get_index(self.dims.as_slice(), index);
        self.data[i] = value;
    }
}

impl<T: Copy, const D: usize> DynArray<T, D> {
    /// A fresh array with every element set to `x`. The grid must have at
    /// least one dimension, and no prefix of the dimension list may
    /// multiply out beyond what a `usize` holds.
    pub fn new(dims: [usize; D], x: T) -> (r: Self)
        requires
            D >= 1,
            forall|k: int| 0 <= k <= D ==> prod_prefix(dims@, k) <= usize::MAX,
        ensures
            r.wf(),
            r.spec_dims() == dims@,
            r.spec_data().len() == dims_product(dims@),
            forall|i: int| 0 <= i < r.spec_data().len() ==> r.spec_data()[i] == x,
    {
        let mut vec_len: usize = 1;
        let mut i: usize = 0;
        while i < D
            invariant
                0 <= i <= D,
                vec_len == prod_prefix(dims@, i as int),
                forall|k: int| 0 <= k <= D ==> prod_prefix(dims@, k) <= usize::MAX,
            decreases D - i,
        {
            proof {
                assert(prod_prefix(dims@, i + 1) == prod_prefix(dims@, i as int) * dims@[i as int]);
                lemma_prod_prefix_nonneg(dims@, i as int);
                assert(vec_len * dims@[i as int] >= 0) by (nonlinear_arith)
                    requires
                        vec_len >= 0,
                        dims@[i as int] >= 0,
                ;
            }
            vec_len = vec_len * dims[i];
            i = i + 1;
        }
        let mut data: Vec<T> = Vec::new();
        while data.len() < vec_len
            invariant
                data@.len() <= vec_len,
                forall|j: int| 0 <= j < data@.len() ==> data@[j] == x,
            decreases vec_len - data@.len(),
    {
            data.push(x);
        }
        Self { dims, data }
    }

    /// A fresh cursor over this array, starting at the first element.
    pub fn iterate(&self) -> (r: Iter<'_, T, D>)
        ensures
            r.arr == self,
            r.pos == 0,
    {
        Iter { arr: self, pos: 0 }
    }

    /// Wraps an existing flat vector; its length must match the grid.
    pub fn new_from_data(dims: [usize; D], data: Vec<T>) -> (r: Self)
        requires
            data@.len() == dims_product(dims@),
        ensures
            r.wf(),
            r.spec_dims() == dims@,
            r.spec_data() == data@,
    {
        Self { dims, data }
    }

    /// A copy of the flat storage, in linear order.
    pub fn to_data(&self) -> (r: Vec<T>)
        ensures
            r@ == self.spec_data(),
    {
        let mut out: Vec<T> = Vec::new();
        let n = self.data.len();
        let mut i: usize = 0;
        while i < n
            invariant
                n == self.spec_data().len(),
                0 <= i <= n,
                out@.len() == i,
                forall|j: int| 0 <= j < i ==> out@[j] == self.spec_data()[j],
            decreases n - i,
        {
            out.push(self.data[i]);
            i = i + 1;
        }
        proof {
            assert(out@ =~= self.spec_data());
        }
        out
    }
}

/// A zero anywhere in the dimension list forces an empty grid.
pub proof fn lemma_zero_dim_zero_product(dims: Seq<usize>, k: int, m: int)
    requires
        0 <= k < m <= dims.len(),
        dims[k] == 0,
    ensures
        prod_prefix(dims, m) == 0,
    decreases m - k,
{
    if m == k + 1 {
        assert(prod_prefix(dims, m) == prod_prefix(dims, k) * 0);
        assert(prod_prefix(dims, k) * 0 == 0) by (nonlinear_arith);
    } else {
        lemma_zero_dim_zero_product(dims, k, m - 1);
        assert(prod_prefix(dims, m) == 0 * dims[m - 1]);
        assert(0 * dims[m - 1] == 0) by (nonlinear_arith);
    }
}

/// A grid with at least one element has no zero dimension.
pub proof fn lemma_nonempty_dims(dims: Seq<usize>, k: int)
    requires
        0 <= k < dims.len(),
        dims_product(dims) > 0,
    ensures
        dims[k] >= 1,
{
    if dims[k] == 0 {
        lemma_zero_dim_zero_product(dims, k, dims.len() as int);
    }
}

/// A cursor over a dense array, yielding each multi-index and its element
/// in ascending linear order, dimension 0 varying fastest.
pub struct Iter<'a, T, const D: usize> {
    pub arr: &'a DynArray<T, D>,
    pub pos: usize,
}

impl<'a, T, const D: usize> Iter<'a, T, D> {
    /// The next multi-index and element, or None once every element has
    /// been yielded.
    pub fn next(&mut self) -> (r: Option<([usize; D], &'a T)>)
        requires
            old(self).arr.wf(),
        ensures
            final(self).arr == old(self).arr,
            old(self).pos < old(self).arr.spec_data().len() ==> (r matches Some(p) && {
                &&& valid_index(old(self).arr.spec_dims(), p.0@)
                &&& linear_index_of(old(self).arr.spec_dims(), p.0@) == old(self).pos
                &&& *p.1 == old(self).arr.spec_data()[old(self).pos as int]
                &&& final(self).pos == old(self).pos + 1
            }),
            old(self).pos >= old(self).arr.spec_data().len() ==> r is None && *final(self) == *old(
                self,
            ),
    {
        let ghost dims = self.arr.spec_dims();
        let n = self.arr.data.len();
        if self.pos >= n {
            return None;
        }
        let pos = self.pos;
        let mut idx: [usize; D] = [0; D];
        let mut rem: usize = pos;
        let mut k: usize = 0;
        while k < D
            invariant
                dims == self.arr.spec_dims(),
                self.arr.wf(),
                n == self.arr.spec_data().len(),
                pos < n,
                0 <= k <= D,
                idx@.len() == D,
                forall|j: int| 0 <= j < k ==> (#[trigger] idx@[j]) < dims[j],
                pos == linear_prefix(dims, idx@, k as int) + rem * prod_prefix(dims, k as int),
            decreases D - k,
        {
            proof {
                lemma_nonempty_dims(dims, k as int);
            }
            let d = self.arr.dims[k];
            let digit: usize = rem % d;
            let ghost rem0 = rem as int;
            rem = rem / d;
            proof {
                vstd::arithmetic::div_mod::lemma_fundamental_div_mod(rem0, d as int);
            }
            let ghost idx0 = idx@;
            idx[k] = digit;
            proof {
                let pk = prod_prefix(dims, k as int);
                let kk = k as int;
                assert(idx@ =~= idx0.update(kk, digit));
                assert(linear_prefix(dims, idx@, kk) == linear_prefix(dims, idx0, kk)) by {
                    lemma_linear_prefix_congruent(dims, idx0, idx@, kk);
                }
                assert(linear_prefix(dims, idx@, kk + 1) == linear_prefix(dims, idx@, kk) + digit
                    * pk);
                assert(rem0 * pk == (rem * (d as int)) * pk + digit * pk) by (nonlinear_arith)
                    requires
                        rem0 == (d as int) * (rem as int) + digit,
                ;
                assert((rem * (d as int)) * pk == rem * (pk * (d as int))) by (nonlinear_arith);
                assert(prod_prefix(dims, kk + 1) == pk * (d as int));
            }
            k = k + 1;
        }
        proof {
            let pd = prod_prefix(dims, D as int);
            lemma_linear_prefix_nonneg(dims, idx@, D as int);
            assert(rem == 0) by (nonlinear_arith)
                requires
                    pos == linear_prefix(dims, idx@, D as int) + rem * pd,
                    linear_prefix(dims, idx@, D as int) >= 0,
                    pos < pd,
                    rem >= 0,
                    pd >= 0,
            ;
            assert(rem * pd == 0) by (nonlinear_arith)
                requires
                    rem == 0,
            ;
        }
        let item = &self.arr.data[pos];
        self.pos = pos + 1;
        Some((idx, item))
    }
}

/// The linearization of a prefix reads only that prefix.
pub proof fn lemma_linear_prefix_congruent(
    dims: Seq<usize>,
    i1: Seq<usize>,
    i2: Seq<usize>,
    k: int,
)
    requires
        forall|j: int| 0 <= j < k ==> i1[j] == #[trigger] i2[j],
    ensures
        linear_prefix(dims, i1, k) == linear_prefix(dims, i2, k),
    decreases k,
{
    if k > 0 {
        lemma_linear_prefix_congruent(dims, i1, i2, k - 1);
        assert(i1[k - 1] == i2[k - 1]);
    }
}

/// A linearized prefix of usize components is never negative.
pub proof fn lemma_linear_prefix_nonneg(dims: Seq<usize>, index: Seq<usize>, k: int)
    ensures
        linear_prefix(dims, index, k) >= 0,
    decreases k,
{
    if k > 0 {
        lemma_linear_prefix_nonneg(dims, index, k - 1);
        lemma_prod_prefix_nonneg(dims, k - 1);
        assert(index[k - 1] * prod_prefix(dims, k - 1) >= 0) by (nonlinear_arith)
            requires
                index[k - 1] >= 0,
                prod_prefix(dims, k - 1) >= 0,
        ;
    }
}

} // verus!
