//! The shape of a seeded noise field.
//!
//! A lattice is described by `dims`, which counts *cells* per axis, so
//! `[3, 1, 2]` is a 3x1x2 grid holding `4 * 2 * 3 = 24` intersections. Every
//! intersection carries one gradient of `dims.len()` components, stored
//! row-major, so the gradient of an intersection starts at its flat position
//! times `dims.len()`.
//!
//! A refined lattice cuts every cell of axis `i` into `divisors[i]` pieces,
//! so axis `i` ends up with `dims[i] * divisors[i] + 1` intersections. Each of
//! them lies in one cell of the lattice, at a local offset that is a whole
//! number of `1 / divisors[i]` steps.

use vstd::prelude::*;

use crate::error::NoiseError;
use crate::layout::{
    horner,
    in_range,
    lemma_decode_step,
    lemma_offset_step,
    lemma_offset_is_horner,
    lemma_offset_prefix_le,
    lemma_product_bounds_parts,
    lemma_product_positive,
    lemma_product_prefix_le,
    lemma_product_single,
    lemma_product_split,
    lemma_unflatten_horner,
    offset,
    product,
    row_major_strides,
    stride,
    unflatten,
};

verus! {

/// Upper bound on `dims.len()`.
///
/// Every sample blends the `2^n` corners of the surrounding cell, so the cost
/// per point doubles with each dimension; the limit keeps that from silently
/// becoming unpayable.
pub const MAX_DIMS: usize = 16;

/// At least one and at most [`MAX_DIMS`] axes, none of them empty.
pub open spec fn valid_dims(dims: Seq<usize>) -> bool {
    &&& 1 <= dims.len() <= MAX_DIMS
    &&& forall|i: int| 0 <= i < dims.len() ==> #[trigger] dims[i] > 0
}

/// Intersections per axis, one more than the cell count.
pub open spec fn lattice_shape(dims: Seq<usize>) -> Seq<usize> {
    Seq::new(dims.len(), |i: int| (dims[i] + 1) as usize)
}

/// The gradients of every intersection, `dims.len()` components each, can be
/// counted in a `usize`.
pub open spec fn lattice_fits(dims: Seq<usize>) -> bool {
    product(lattice_shape(dims)) * dims.len() <= usize::MAX
}

/// Why `dims` cannot describe a lattice, checked in this order; `None` when
/// it can.
pub open spec fn lattice_error(dims: Seq<usize>) -> Option<NoiseError> {
    if dims.len() == 0 {
        Some(NoiseError::NoDimensions)
    } else if dims.len() > MAX_DIMS {
        Some(NoiseError::TooManyDimensions)
    } else if exists|i: int| 0 <= i < dims.len() && #[trigger] dims[i] == 0 {
        Some(NoiseError::ZeroDimension)
    } else if !lattice_fits(dims) {
        Some(NoiseError::Overflow)
    } else {
        None
    }
}

/// Intersections of axis `i` of the refined lattice.
pub open spec fn refined_size(dims: Seq<usize>, divisors: Seq<usize>, i: int) -> int {
    dims[i] * divisors[i] + 1
}

/// Intersections per axis of the refined lattice.
pub open spec fn refined_shape(dims: Seq<usize>, divisors: Seq<usize>) -> Seq<usize> {
    Seq::new(dims.len(), |i: int| refined_size(dims, divisors, i) as usize)
}

/// The divisors are checked axis by axis, and the first axis that fails
/// decides the error: a zero divisor, a size that overflows, or a running
/// point count that overflows. On success, the point count of the first `k`
/// axes.
pub open spec fn layout_scan(dims: Seq<usize>, divisors: Seq<usize>, k: nat) -> Result<int, NoiseError>
    decreases k,
{
    if k == 0 {
        Ok(1)
    } else {
        match layout_scan(dims, divisors, (k - 1) as nat) {
            Err(e) => Err(e),
            Ok(count) => {
                let i = k - 1;
                if divisors[i] == 0 {
                    Err(NoiseError::ZeroDivisor)
                } else if refined_size(dims, divisors, i) > usize::MAX {
                    Err(NoiseError::Overflow)
                } else if count * refined_size(dims, divisors, i) > usize::MAX {
                    Err(NoiseError::Overflow)
                } else {
                    Ok(count * refined_size(dims, divisors, i))
                }
            },
        }
    }
}

/// The point count of the refined lattice, or why `divisors` are refused.
pub open spec fn table_layout_result(dims: Seq<usize>, divisors: Seq<usize>) -> Result<int, NoiseError> {
    if divisors.len() != dims.len() {
        Err(NoiseError::WrongDivisorCount { expected: dims.len() as usize, got: divisors.len() as usize })
    } else {
        layout_scan(dims, divisors, dims.len())
    }
}

/// Cell of the lattice that refined intersection `index` of an axis with
/// `cells` cells, each cut into `divisor` pieces, lies in. The upper boundary
/// belongs to the last cell.
pub open spec fn point_cell(cells: int, divisor: int, index: int) -> int {
    if index / divisor < cells {
        index / divisor
    } else {
        cells - 1
    }
}

/// How many `1 / divisor` steps into its cell that intersection lies.
pub open spec fn point_step(cells: int, divisor: int, index: int) -> int {
    if index / divisor < cells {
        index % divisor
    } else {
        divisor
    }
}

/// Bit `i` of `corner`: whether the corner takes the upper intersection of
/// axis `i`.
pub open spec fn corner_bit(corner: usize, i: int) -> usize {
    (corner >> (i as usize)) & 1usize
}

/// The intersection at `corner` of the cell whose lower corner is `cell`.
pub open spec fn corner_point(cell: Seq<usize>, corner: usize) -> Seq<usize> {
    Seq::new(cell.len(), |i: int| (cell[i] + corner_bit(corner, i)) as usize)
}

/// What a lattice is, apart from its gradients.
pub struct LatticeView {
    pub dims: Seq<usize>,
    pub seed: u64,
}

/// The shape of a seeded Perlin noise field, and its layout in memory.
pub struct Lattice {
    dims: Vec<usize>,
    /// Intersections per axis, `dims[i] + 1`.
    shape: Vec<usize>,
    /// Row-major strides over `shape`, in intersections.
    strides: Vec<usize>,
    inters: usize,
    seed: u64,
}

impl View for Lattice {
    type V = LatticeView;

    closed spec fn view(&self) -> LatticeView {
        LatticeView { dims: self.dims@, seed: self.seed }
    }
}

impl Lattice {
    #[verifier::type_invariant]
    spec fn well_formed(self) -> bool {
        &&& valid_dims(self.dims@)
        &&& forall|i: int| 0 <= i < self.dims@.len() ==> #[trigger] self.dims@[i] < usize::MAX
        &&& lattice_fits(self.dims@)
        &&& self.shape@ == lattice_shape(self.dims@)
        &&& self.inters as int == product(self.shape@)
        &&& self.strides@.len() == self.dims@.len()
        &&& forall|i: int| 0 <= i < self.strides@.len() ==> #[trigger] self.strides@[i] as int == stride(self.shape@, i)
    }

    /// Checks `dims` and lays out the lattice it describes for `seed`.
    pub fn new(dims: Vec<usize>, seed: u64) -> (lattice: Result<Lattice, NoiseError>)
        requires
            valid_dims(dims@) ==> forall|i: int| 0 <= i < dims@.len() ==> #[trigger] dims@[i] < usize::MAX,
        ensures
            match lattice_error(dims@) {
                Some(e) => lattice == Err::<Lattice, NoiseError>(e),
                None => lattice matches Ok(l) && l@ == (LatticeView { dims: dims@, seed }),
            },
    {
        let n = dims.len();
        if n == 0 {
            return Err(NoiseError::NoDimensions);
        }
        if n > MAX_DIMS {
            return Err(NoiseError::TooManyDimensions);
        }
        let mut k: usize = 0;
        while k < n
            invariant
                k <= n,
                n == dims@.len(),
                1 <= n <= MAX_DIMS,
                forall|j: int| 0 <= j < k ==> #[trigger] dims@[j] > 0,
            decreases n - k,
        {
            if dims[k] == 0 {
                assert(dims@[k as int] == 0);
                return Err(NoiseError::ZeroDimension);
            }
            k = k + 1;
        }
        assert(valid_dims(dims@));

        let mut shape: Vec<usize> = Vec::with_capacity(n);
        let mut i: usize = 0;
        while i < n
            invariant
                i <= n,
                n == dims@.len(),
                forall|j: int| 0 <= j < n ==> #[trigger] dims@[j] < usize::MAX,
                shape@ == lattice_shape(dims@).subrange(0, i as int),
            decreases n - i,
        {
            shape.push(dims[i] + 1);
            i = i + 1;
        }
        assert(shape@ == lattice_shape(dims@));
        assert forall|j: int| 0 <= j < shape@.len() implies #[trigger] shape@[j] >= 1 by {}

        let mut inters: usize = 1;
        let mut i: usize = 0;
        while i < n
            invariant
                i <= n,
                n == dims@.len(),
                n == shape@.len(),
                n >= 1,
                valid_dims(dims@),
                shape@ == lattice_shape(dims@),
                forall|j: int| 0 <= j < shape@.len() ==> #[trigger] shape@[j] >= 1,
                inters as int == product(shape@.subrange(0, i as int)),
            decreases n - i,
        {
            assert(shape@.subrange(0, i + 1).drop_last() =~= shape@.subrange(0, i as int));
            match inters.checked_mul(shape[i]) {
                None => {
                    proof {
                        assert(shape@.subrange(0, i + 1).last() == shape@[i as int]);
                        assert(product(shape@.subrange(0, i + 1)) > usize::MAX);
                        lemma_product_prefix_le(shape@, i + 1);
                        vstd::arithmetic::mul::lemma_mul_inequality(1, n as int, product(shape@));
                        vstd::arithmetic::mul::lemma_mul_is_commutative(n as int, product(shape@));
                        assert(!lattice_fits(dims@));
                    }
                    return Err(NoiseError::Overflow);
                },
                Some(next) => {
                    inters = next;
                },
            }
            i = i + 1;
        }
        assert(shape@.subrange(0, n as int) =~= shape@);
        if inters.checked_mul(n).is_none() {
            assert(!lattice_fits(dims@));
            return Err(NoiseError::Overflow);
        }
        proof {
            vstd::arithmetic::mul::lemma_mul_inequality(1, n as int, product(shape@));
            lemma_product_bounds_parts(shape@);
        }
        let strides = row_major_strides(&shape);
        Ok(Lattice { dims, shape, strides, inters, seed })
    }

    /// Cells per axis, as passed to [`Lattice::new`].
    pub fn dims(&self) -> (dims: &[usize])
        ensures
            dims@ == self@.dims,
            valid_dims(dims@),
            lattice_fits(dims@),
            forall|i: int| 0 <= i < dims@.len() ==> #[trigger] dims@[i] < usize::MAX,
    {
        proof {
            use_type_invariant(self);
        }
        self.dims.as_slice()
    }

    /// Intersections per axis, one more than the cell count.
    pub fn shape(&self) -> (shape: &[usize])
        ensures
            shape@ == lattice_shape(self@.dims),
    {
        proof {
            use_type_invariant(self);
        }
        self.shape.as_slice()
    }

    /// Total number of intersections.
    pub fn intersections(&self) -> (count: usize)
        ensures
            count as int == product(lattice_shape(self@.dims)),
    {
        proof {
            use_type_invariant(self);
        }
        self.inters
    }

    /// The seed this field was built from.
    pub fn seed(&self) -> (seed: u64)
        ensures
            seed == self@.seed,
    {
        self.seed
    }

    /// Row-major strides over the intersection lattice.
    pub fn strides(&self) -> (strides: &[usize])
        ensures
            strides@.len() == self@.dims.len(),
            forall|i: int| 0 <= i < strides@.len() ==> #[trigger] strides@[i] as int == stride(lattice_shape(self@.dims), i),
    {
        proof {
            use_type_invariant(self);
        }
        self.strides.as_slice()
    }

    /// Where in the gradient components the gradient of intersection `index`
    /// starts, for an index already known to lie in the lattice.
    fn start_of(&self, index: &[usize]) -> (start: usize)
        requires
            in_range(index@, lattice_shape(self@.dims)),
        ensures
            start as int == offset(index@, lattice_shape(self@.dims)) * self@.dims.len(),
            start + self@.dims.len() <= product(lattice_shape(self@.dims)) * self@.dims.len(),
    {
        proof {
            use_type_invariant(self);
        }
        let n = self.dims.len();
        let ghost shape = self.shape@;
        proof {
            lemma_offset_is_horner(index@, shape);
        }
        let mut flat: usize = 0;
        let mut i: usize = 0;
        while i < n
            invariant
                i <= n,
                n == index@.len(),
                n == self.strides@.len(),
                shape == self.shape@,
                in_range(index@, shape),
                forall|j: int| 0 <= j < n ==> #[trigger] self.strides@[j] as int == stride(shape, j),
                offset(index@, shape) < product(shape),
                product(shape) <= usize::MAX,
                flat as int == offset(index@.subrange(0, i as int), shape),
            decreases n - i,
        {
            proof {
                let next = index@.subrange(0, i + 1);
                assert(next.drop_last() =~= index@.subrange(0, i as int));
                lemma_offset_prefix_le(index@, shape, i + 1);
                lemma_product_nonnegative_stride(shape, i as int);
                vstd::arithmetic::mul::lemma_mul_nonnegative(index@[i as int] as int, stride(shape, i as int));
            }
            flat = flat + index[i] * self.strides[i];
            i = i + 1;
        }
        assert(index@.subrange(0, n as int) =~= index@);
        proof {
            assert(flat * n + n <= product(shape) * n) by (nonlinear_arith)
                requires
                    flat < product(shape),
                    n >= 1,
            ;
            assert(product(shape) * n <= usize::MAX);
        }
        flat * n
    }

    /// Where the gradient stored at an intersection starts among the gradient
    /// components, or `None` if `index` is out of the lattice. The gradient
    /// is the `dims.len()` components from there.
    pub fn gradient_offset(&self, index: &[usize]) -> (start: Option<usize>)
        ensures
            match start {
                Some(s) => {
                    &&& in_range(index@, lattice_shape(self@.dims))
                    &&& s as int == offset(index@, lattice_shape(self@.dims)) * self@.dims.len()
                    &&& s + self@.dims.len() <= product(lattice_shape(self@.dims)) * self@.dims.len()
                },
                None => !in_range(index@, lattice_shape(self@.dims)),
            },
    {
        proof {
            use_type_invariant(self);
        }
        let n = self.dims.len();
        if index.len() != n {
            return None;
        }
        let mut i: usize = 0;
        while i < n
            invariant
                i <= n,
                n == index@.len(),
                self.shape@ == lattice_shape(self@.dims),
                self.shape@.len() == n,
                forall|j: int| 0 <= j < i ==> #[trigger] index@[j] < self.shape@[j],
            decreases n - i,
        {
            if index[i] >= self.shape[i] {
                return None;
            }
            i = i + 1;
        }
        Some(self.start_of(index))
    }

    /// Where the gradient of one corner of a cell starts: `cell` is the
    /// lower corner of the cell, and bit `i` of `corner` picks the upper
    /// intersection of axis `i`.
    pub fn corner_offset(&self, cell: &[usize], corner: usize) -> (start: usize)
        requires
            cell@.len() == self@.dims.len(),
            forall|i: int| 0 <= i < cell@.len() ==> #[trigger] cell@[i] < self@.dims[i],
        ensures
            in_range(corner_point(cell@, corner), lattice_shape(self@.dims)),
            start as int == offset(corner_point(cell@, corner), lattice_shape(self@.dims)) * self@.dims.len(),
            start + self@.dims.len() <= product(lattice_shape(self@.dims)) * self@.dims.len(),
    {
        proof {
            use_type_invariant(self);
        }
        let n = self.dims.len();
        let mut point: Vec<usize> = Vec::with_capacity(n);
        let mut i: usize = 0;
        while i < n
            invariant
                i <= n,
                n == cell@.len(),
                n == self.dims@.len(),
                n <= MAX_DIMS,
                forall|j: int| 0 <= j < n ==> #[trigger] cell@[j] < self.dims@[j],
                point@ == corner_point(cell@, corner).subrange(0, i as int),
            decreases n - i,
        {
            let bit = (corner >> i) & 1;
            proof {
                lemma_low_bit(corner, i);
            }
            point.push(cell[i] + bit);
            i = i + 1;
        }
        proof {
            assert(point@ =~= corner_point(cell@, corner));
            assert forall|j: int| 0 <= j < n implies #[trigger] point@[j] < self.shape@[j] by {
                lemma_low_bit(corner, j as usize);
            }
        }
        self.start_of(point.as_slice())
    }

    /// Checks that a point has one coordinate per dimension.
    pub fn expect_coordinates(&self, count: usize) -> (checked: Result<(), NoiseError>)
        ensures
            count == self@.dims.len() ==> checked is Ok,
            count != self@.dims.len() ==> checked == Err::<(), NoiseError>(
                NoiseError::WrongCoordinateCount { expected: self@.dims.len() as usize, got: count },
            ),
    {
        let n = self.dims.len();
        if count != n {
            return Err(NoiseError::WrongCoordinateCount { expected: n, got: count });
        }
        Ok(())
    }

    /// Checks `divisors` and returns the refined shape with its point count.
    pub fn table_layout(&self, divisors: &[usize]) -> (layout: Result<(Vec<usize>, usize), NoiseError>)
        ensures
            match table_layout_result(self@.dims, divisors@) {
                Err(e) => layout == Err::<(Vec<usize>, usize), NoiseError>(e),
                Ok(count) => layout matches Ok((shape, c)) && {
                    &&& shape@ == refined_shape(self@.dims, divisors@)
                    &&& c as int == count
                    &&& count == product(shape@)
                },
            },
    {
        proof {
            use_type_invariant(self);
        }
        let n = self.dims.len();
        if divisors.len() != n {
            return Err(NoiseError::WrongDivisorCount { expected: n, got: divisors.len() });
        }
        let ghost dims = self.dims@;
        let mut shape: Vec<usize> = Vec::with_capacity(n);
        let mut count: usize = 1;
        let mut i: usize = 0;
        while i < n
            invariant
                i <= n,
                n == dims.len(),
                n == divisors@.len(),
                dims == self.dims@,
                layout_scan(dims, divisors@, i as nat) == Ok::<int, NoiseError>(count as int),
                shape@ == refined_shape(dims, divisors@).subrange(0, i as int),
                count as int == product(shape@),
            decreases n - i,
        {
            let divisor = divisors[i];
            proof {
                lemma_layout_scan_error_persists(dims, divisors@, (i + 1) as nat, n as nat);
            }
            if divisor == 0 {
                return Err(NoiseError::ZeroDivisor);
            }
            let cells = match self.dims[i].checked_mul(divisor) {
                Some(cells) => cells,
                None => {
                    return Err(NoiseError::Overflow);
                },
            };
            let size = match cells.checked_add(1) {
                Some(size) => size,
                None => {
                    return Err(NoiseError::Overflow);
                },
            };
            let next = match count.checked_mul(size) {
                Some(next) => next,
                None => {
                    return Err(NoiseError::Overflow);
                },
            };
            shape.push(size);
            proof {
                assert(shape@.drop_last() =~= refined_shape(dims, divisors@).subrange(0, i as int));
                assert(shape@ =~= refined_shape(dims, divisors@).subrange(0, i + 1));
            }
            count = next;
            i = i + 1;
        }
        assert(shape@ =~= refined_shape(dims, divisors@));
        Ok((shape, count))
    }

    /// Intersections per axis that a table of `divisors` would have, without
    /// computing any noise.
    pub fn table_shape(&self, divisors: &[usize]) -> (shape: Result<Vec<usize>, NoiseError>)
        ensures
            match table_layout_result(self@.dims, divisors@) {
                Err(e) => shape == Err::<Vec<usize>, NoiseError>(e),
                Ok(count) => shape matches Ok(s) && s@ == refined_shape(self@.dims, divisors@) && count
                    == product(s@),
            },
    {
        match self.table_layout(divisors) {
            Ok((shape, _count)) => Ok(shape),
            Err(e) => Err(e),
        }
    }

    /// The cell and local offset of the refined intersection at row-major
    /// position `flat`: for each axis, the cell of the lattice it lies in and
    /// how many `1 / divisors[i]` steps into that cell. Integer division keeps
    /// the cell exact, so points that land on an intersection get a step of 0
    /// or of the whole divisor with no rounding slack.
    pub fn table_point(&self, flat: usize, divisors: &[usize], table_strides: &[usize]) -> (point: (
        Vec<usize>,
        Vec<usize>,
    ))
        requires
            table_layout_result(self@.dims, divisors@) is Ok,
            flat < product(refined_shape(self@.dims, divisors@)),
            table_strides@.len() == self@.dims.len(),
            forall|i: int| 0 <= i < table_strides@.len() ==> #[trigger] table_strides@[i] as int == stride(
                refined_shape(self@.dims, divisors@), i),
        ensures
            point.0@.len() == self@.dims.len(),
            point.1@.len() == self@.dims.len(),
            forall|i: int| 0 <= i < self@.dims.len() ==> {
                let index = unflatten(flat as int, refined_shape(self@.dims, divisors@), i);
                &&& #[trigger] point.0@[i] as int == point_cell(self@.dims[i] as int, divisors@[i] as int, index)
                &&& point.1@[i] as int == point_step(self@.dims[i] as int, divisors@[i] as int, index)
                &&& point.0@[i] < self@.dims[i]
                &&& point.1@[i] <= divisors@[i]
                &&& point.0@[i] * divisors@[i] + point.1@[i] == index
            },
    {
        proof {
            use_type_invariant(self);
        }
        let n = self.dims.len();
        let ghost dims = self.dims@;
        let ghost shape = refined_shape(dims, divisors@);
        proof {
            lemma_layout_scan_sizes(dims, divisors@, n as nat);
            assert(shape.subrange(0, n as int) =~= shape);
            vstd::arithmetic::div_mod::lemma_small_mod(flat as nat, product(shape) as nat);
        }
        let mut cells: Vec<usize> = Vec::with_capacity(n);
        let mut steps: Vec<usize> = Vec::with_capacity(n);
        let mut rest: usize = flat;
        let mut i: usize = 0;
        while i < n
            invariant
                i <= n,
                n == dims.len(),
                n == divisors@.len(),
                n == table_strides@.len(),
                dims == self.dims@,
                valid_dims(dims),
                shape == refined_shape(dims, divisors@),
                forall|j: int| 0 <= j < n ==> #[trigger] divisors@[j] > 0,
                forall|j: int| 0 <= j < n ==> #[trigger] shape[j] as int == refined_size(dims, divisors@, j),
                forall|j: int| 0 <= j < n ==> #[trigger] table_strides@[j] as int == stride(shape, j),
                flat < product(shape),
                rest as int == (flat as int) % product(shape.subrange(i as int, n as int)),
                cells@.len() == i,
                steps@.len() == i,
                forall|j: int| 0 <= j < i ==> {
                    let index = unflatten(flat as int, shape, j);
                    &&& #[trigger] cells@[j] as int == point_cell(dims[j] as int, divisors@[j] as int, index)
                    &&& steps@[j] as int == point_step(dims[j] as int, divisors@[j] as int, index)
                    &&& cells@[j] < dims[j]
                    &&& steps@[j] <= divisors@[j]
                    &&& cells@[j] * divisors@[j] + steps@[j] == index
                },
            decreases n - i,
        {
            let ghost index_spec = unflatten(flat as int, shape, i as int);
            proof {
                lemma_product_split(shape, i as int, i + 1, n as int);
                lemma_product_single(shape, i as int);
                lemma_stride_positive(shape, i as int);
                vstd::arithmetic::mul::lemma_mul_is_commutative(shape[i as int] as int, stride(shape, i as int));
                lemma_decode_step(flat as int, shape[i as int] as int, stride(shape, i as int));
                vstd::arithmetic::div_mod::lemma_mod_pos_bound(flat as int / stride(shape, i as int), shape[i as int] as int);
            }
            let index = rest / table_strides[i];
            rest = rest % table_strides[i];
            assert(index as int == index_spec);
            let divisor = divisors[i];
            let base = index / divisor;
            proof {
                vstd::arithmetic::div_mod::lemma_fundamental_div_mod(index as int, divisor as int);
                vstd::arithmetic::div_mod::lemma_mod_pos_bound(index as int, divisor as int);
                assert(index <= self.dims@[i as int] * divisor);
                vstd::arithmetic::div_mod::lemma_div_is_ordered(index as int, self.dims@[i as int] * divisor, divisor as int);
                vstd::arithmetic::div_mod::lemma_div_by_multiple(self.dims@[i as int] as int, divisor as int);
            }
            if base >= self.dims[i] {
                proof {
                    assert(index as int == self.dims@[i as int] * divisor) by (nonlinear_arith)
                        requires
                            index as int == divisor * (index as int / divisor as int) + index as int % divisor as int,
                            0 <= index as int % divisor as int,
                            base as int == index as int / divisor as int,
                            base >= self.dims@[i as int],
                            base <= self.dims@[i as int],
                            index <= self.dims@[i as int] * divisor,
                    ;
                    assert((self.dims@[i as int] - 1) * divisor + divisor == self.dims@[i as int] * divisor) by (nonlinear_arith);
                }
                cells.push(self.dims[i] - 1);
                steps.push(divisor);
            } else {
                proof {
                    assert(base * divisor + index % divisor == index as int) by (nonlinear_arith)
                        requires
                            index as int == divisor * (index as int / divisor as int) + index as int % divisor as int,
                            base as int == index as int / divisor as int,
                    ;
                }
                cells.push(base);
                steps.push(index % divisor);
            }
            i = i + 1;
        }
        (cells, steps)
    }
}

/// Setting bit `i` of a corner changes bit `i`, and no other bit.
proof fn lemma_set_bit(corner: usize, i: usize, j: usize)
    requires
        i < 32,
        j < 32,
    ensures
        j != i ==> ((corner | (1usize << i)) >> j) & 1usize == (corner >> j) & 1usize,
        ((corner | (1usize << i)) >> i) & 1usize == 1usize,
        (0usize >> j) & 1usize == 0usize,
{
    assert(j != i ==> ((corner | (1usize << i)) >> j) & 1usize == (corner >> j) & 1usize) by (bit_vector)
        requires
            i < 32,
            j < 32,
    ;
    assert(((corner | (1usize << i)) >> i) & 1usize == 1usize) by (bit_vector)
        requires
            i < 32,
    ;
    assert((0usize >> j) & 1usize == 0usize) by (bit_vector);
}

/// Bit `i` of a corner moves axis `i`, and only axis `i`: the corner with
/// no bit set is the cell's own lower intersection, and setting bit `i` of a
/// corner in which it is clear moves its gradient on by exactly the stride of
/// axis `i`. In particular `corner_offset(cell, 1 << i)` is
/// `corner_offset(cell, 0)` plus `strides[i] * n`: the gradient the blend
/// weights by the fade of axis `i` alone is the one up on axis `i`.
pub proof fn lemma_corner_bit_moves_its_axis(cell: Seq<usize>, corner: usize, i: int, shape: Seq<usize>)
    requires
        0 <= i < cell.len() <= MAX_DIMS,
        forall|j: int| 0 <= j < cell.len() ==> #[trigger] cell[j] < usize::MAX,
        (corner >> (i as usize)) & 1usize == 0usize,
    ensures
        corner_point(cell, 0) == cell,
        offset(corner_point(cell, corner | (1usize << (i as usize))), shape) == offset(
            corner_point(cell, corner),
            shape,
        ) + stride(shape, i),
        offset(corner_point(cell, 1usize << (i as usize)), shape) == offset(cell, shape) + stride(shape, i),
{
    lemma_setting_a_clear_bit(cell, corner, i, shape);
    let shift: usize = i as usize;
    assert((0usize >> shift) & 1usize == 0usize) by (bit_vector);
    lemma_setting_a_clear_bit(cell, 0, i, shape);
    let bit: usize = 1usize << shift;
    assert(0usize | bit == bit) by (bit_vector);
}

/// Setting the clear bit `i` of a corner steps its intersection up axis `i`.
proof fn lemma_setting_a_clear_bit(cell: Seq<usize>, corner: usize, i: int, shape: Seq<usize>)
    requires
        0 <= i < cell.len() <= MAX_DIMS,
        forall|j: int| 0 <= j < cell.len() ==> #[trigger] cell[j] < usize::MAX,
        (corner >> (i as usize)) & 1usize == 0usize,
    ensures
        corner_point(cell, 0) == cell,
        offset(corner_point(cell, corner | (1usize << (i as usize))), shape) == offset(
            corner_point(cell, corner),
            shape,
        ) + stride(shape, i),
{
    let low = corner_point(cell, corner);
    let high = corner_point(cell, corner | (1usize << (i as usize)));
    assert forall|j: int| 0 <= j < cell.len() implies #[trigger] corner_point(cell, 0)[j] == cell[j] by {
        lemma_set_bit(corner, i as usize, j as usize);
    }
    assert(corner_point(cell, 0) =~= cell);
    lemma_set_bit(corner, i as usize, i as usize);
    lemma_low_bit(corner, i as usize);
    assert forall|j: int| 0 <= j < cell.len() implies #[trigger] high[j] == low.update(
        i,
        (low[i] + 1) as usize,
    )[j] by {
        lemma_set_bit(corner, i as usize, j as usize);
        lemma_low_bit(corner, j as usize);
    }
    assert(high =~= low.update(i, (low[i] + 1) as usize));
    lemma_offset_step(low, shape, i);
}

/// A bit is 0 or 1.
proof fn lemma_low_bit(value: usize, shift: usize)
    ensures
        (value >> shift) & 1usize <= 1,
{
    assert((value >> shift) & 1usize <= 1) by (bit_vector);
}

/// The table entry that a row-major lookup reads for a refined index is the
/// point that index names: decoding its row-major position gives the index
/// back, and the cell and step it is evaluated at put it exactly
/// `index[i] / divisors[i]` cells along axis `i`, on the lattice's boundary
/// included. This is what makes a table agree point by point with sampling
/// the field at `index[i] / divisors[i]`.
pub proof fn lemma_table_entry_is_its_point(dims: Seq<usize>, divisors: Seq<usize>, index: Seq<usize>, i: int)
    requires
        valid_dims(dims),
        table_layout_result(dims, divisors) is Ok,
        in_range(index, refined_shape(dims, divisors)),
        0 <= i < dims.len(),
    ensures
        ({
            let shape = refined_shape(dims, divisors);
            let at = unflatten(horner(index, shape), shape, i);
            &&& at == index[i] as int
            &&& point_cell(dims[i] as int, divisors[i] as int, at) * divisors[i] + point_step(
                dims[i] as int,
                divisors[i] as int,
                at,
            ) == index[i] as int
            &&& 0 <= point_cell(dims[i] as int, divisors[i] as int, at) < dims[i]
            &&& 0 <= point_step(dims[i] as int, divisors[i] as int, at) <= divisors[i]
        }),
{
    let shape = refined_shape(dims, divisors);
    lemma_layout_scan_sizes(dims, divisors, dims.len() as nat);
    lemma_unflatten_horner(index, shape, i);
    let c = index[i] as int;
    let d = divisors[i] as int;
    let cells = dims[i] as int;
    assert(c <= cells * d);
    vstd::arithmetic::div_mod::lemma_fundamental_div_mod(c, d);
    vstd::arithmetic::div_mod::lemma_mod_pos_bound(c, d);
    vstd::arithmetic::div_mod::lemma_div_pos_is_pos(c, d);
    vstd::arithmetic::div_mod::lemma_div_is_ordered(c, cells * d, d);
    vstd::arithmetic::div_mod::lemma_div_by_multiple(cells, d);
    if c / d >= cells {
        assert(c == cells * d) by (nonlinear_arith)
            requires
                c == d * (c / d) + c % d,
                0 <= c % d,
                c / d == cells,
                c <= cells * d,
        ;
        assert((cells - 1) * d + d == c) by (nonlinear_arith)
            requires
                c == cells * d,
        ;
    } else {
        assert((c / d) * d + c % d == c) by (nonlinear_arith)
            requires
                c == d * (c / d) + c % d,
        ;
    }
}

/// Divisors of one refine nothing: the table of a lattice with every divisor
/// 1 has exactly the lattice's intersections.
pub proof fn lemma_unit_divisors_keep_the_lattice(dims: Seq<usize>, divisors: Seq<usize>)
    requires
        divisors.len() == dims.len(),
        forall|i: int| 0 <= i < divisors.len() ==> #[trigger] divisors[i] == 1,
    ensures
        refined_shape(dims, divisors) == lattice_shape(dims),
{
    assert(refined_shape(dims, divisors) =~= lattice_shape(dims));
}

/// Strides are positive when every size is.
proof fn lemma_stride_positive(shape: Seq<usize>, i: int)
    requires
        0 <= i < shape.len(),
        forall|j: int| 0 <= j < shape.len() ==> #[trigger] shape[j] > 0,
    ensures
        stride(shape, i) > 0,
{
    let s = shape.subrange(i + 1, shape.len() as int);
    assert forall|j: int| 0 <= j < s.len() implies #[trigger] s[j] > 0 by {
        assert(s[j] == shape[i + 1 + j]);
    }
    lemma_product_positive(s);
}

proof fn lemma_product_nonnegative_stride(shape: Seq<usize>, i: int)
    ensures
        stride(shape, i) >= 0,
{
    crate::layout::lemma_product_nonnegative(shape.subrange(i + 1, shape.len() as int));
}

/// Once the scan has failed at some axis, the error stands for every longer
/// scan.
proof fn lemma_layout_scan_error_persists(dims: Seq<usize>, divisors: Seq<usize>, k: nat, m: nat)
    requires
        k <= m,
    ensures
        layout_scan(dims, divisors, k) is Err ==> layout_scan(dims, divisors, m) == layout_scan(dims, divisors, k),
    decreases m - k,
{
    if k < m {
        lemma_layout_scan_error_persists(dims, divisors, k, (m - 1) as nat);
    }
}

/// What a successful layout scan tells about each axis: its divisor is
/// positive, and its size is the refined size and fits.
proof fn lemma_layout_scan_sizes(dims: Seq<usize>, divisors: Seq<usize>, k: nat)
    requires
        k <= dims.len(),
        k <= divisors.len(),
        layout_scan(dims, divisors, k) is Ok,
    ensures
        forall|j: int| 0 <= j < k ==> #[trigger] divisors[j] > 0,
        forall|j: int| 0 <= j < k ==> #[trigger] refined_size(dims, divisors, j) <= usize::MAX,
        layout_scan(dims, divisors, k) == Ok::<int, NoiseError>(product(
            refined_shape(dims, divisors).subrange(0, k as int),
        )),
    decreases k,
{
    if k > 0 {
        lemma_layout_scan_sizes(dims, divisors, (k - 1) as nat);
        let shape = refined_shape(dims, divisors);
        assert(shape.subrange(0, k as int).drop_last() =~= shape.subrange(0, k - 1));
    }
}

} // verus!
