//! Row-major layout of a lattice: sizes, strides, and the flat position of a
//! multi-dimensional index.
//!
//! Every table and every lattice in this crate is stored row-major, with the
//! last axis contiguous. Two ways of computing a flat position appear: the
//! stride sum `sum(index[i] * stride[i])` and the Horner form
//! `((index[0] * shape[1] + index[1]) * shape[2] + ...)`. They agree on every
//! index inside the shape, and the stride decoding `(flat / stride[i]) %
//! shape[i]` gives the index back.

use vstd::prelude::*;
use vstd::arithmetic::div_mod::{
    lemma_breakdown,
    lemma_fundamental_div_mod_converse,
    lemma_mod_mod,
};
use vstd::arithmetic::mul::{
    lemma_mul_inequality,
    lemma_mul_is_associative,
    lemma_mul_is_commutative,
    lemma_mul_nonnegative,
};

verus! {

/// Product of a sequence of sizes; the empty product is 1.
pub open spec fn product(s: Seq<usize>) -> int
    decreases s.len(),
{
    if s.len() == 0 {
        1
    } else {
        product(s.drop_last()) * s.last()
    }
}

/// Row-major stride of axis `i`: the product of the sizes after it.
pub open spec fn stride(shape: Seq<usize>, i: int) -> int {
    product(shape.subrange(i + 1, shape.len() as int))
}

/// Flat position of `index` as a stride sum over `shape`.
pub open spec fn offset(index: Seq<usize>, shape: Seq<usize>) -> int
    decreases index.len(),
{
    if index.len() == 0 {
        0
    } else {
        offset(index.drop_last(), shape) + index.last() * stride(shape, index.len() - 1)
    }
}

/// Flat position of `index` in Horner form over `shape`.
pub open spec fn horner(index: Seq<usize>, shape: Seq<usize>) -> int
    decreases index.len(),
{
    if index.len() == 0 {
        0
    } else {
        horner(index.drop_last(), shape) * shape[index.len() - 1] + index.last()
    }
}

/// One coordinate per axis, each below the size of its axis.
pub open spec fn in_range(index: Seq<usize>, shape: Seq<usize>) -> bool {
    &&& index.len() == shape.len()
    &&& forall|i: int| 0 <= i < index.len() ==> #[trigger] index[i] < shape[i]
}

/// Coordinate `i` of the point stored at flat position `flat`.
pub open spec fn unflatten(flat: int, shape: Seq<usize>, i: int) -> int {
    (flat / stride(shape, i)) % (shape[i] as int)
}

/// Every leading product of `shape` fits in a `usize`.
pub open spec fn prefixes_fit(shape: Seq<usize>) -> bool {
    forall|k: int| 0 <= k <= shape.len() ==> #[trigger] product(shape.subrange(0, k)) <= usize::MAX
}

/// Every stride of `shape` fits in a `usize`: the products of the sizes
/// after each axis. The size of the first axis is never multiplied in.
pub open spec fn suffixes_fit(shape: Seq<usize>) -> bool {
    forall|k: int| 1 <= k <= shape.len() ==> #[trigger] product(shape.subrange(k, shape.len() as int)) <= usize::MAX
}

pub proof fn lemma_product_nonnegative(s: Seq<usize>)
    ensures
        product(s) >= 0,
    decreases s.len(),
{
    if s.len() > 0 {
        lemma_product_nonnegative(s.drop_last());
        lemma_mul_nonnegative(product(s.drop_last()), s.last() as int);
    }
}

pub proof fn lemma_product_positive(s: Seq<usize>)
    requires
        forall|i: int| 0 <= i < s.len() ==> #[trigger] s[i] > 0,
    ensures
        product(s) > 0,
    decreases s.len(),
{
    if s.len() > 0 {
        lemma_product_positive(s.drop_last());
        vstd::arithmetic::mul::lemma_mul_strictly_positive(product(s.drop_last()), s.last() as int);
    }
}

/// `product(s[a..c]) == product(s[a..b]) * product(s[b..c])`.
pub proof fn lemma_product_split(s: Seq<usize>, a: int, b: int, c: int)
    requires
        0 <= a <= b <= c <= s.len(),
    ensures
        product(s.subrange(a, c)) == product(s.subrange(a, b)) * product(s.subrange(b, c)),
    decreases c - b,
{
    if c == b {
        assert(s.subrange(b, c).len() == 0);
        assert(s.subrange(a, c) =~= s.subrange(a, b));
    } else {
        lemma_product_split(s, a, b, c - 1);
        assert(s.subrange(a, c).drop_last() =~= s.subrange(a, c - 1));
        assert(s.subrange(b, c).drop_last() =~= s.subrange(b, c - 1));
        lemma_mul_is_associative(
            product(s.subrange(a, b)),
            product(s.subrange(b, c - 1)),
            s[c - 1] as int,
        );
    }
}

/// A single size is its own product.
pub proof fn lemma_product_single(s: Seq<usize>, i: int)
    requires
        0 <= i < s.len(),
    ensures
        product(s.subrange(i, i + 1)) == s[i] as int,
{
    let one = s.subrange(i, i + 1);
    assert(one.drop_last() =~= Seq::<usize>::empty());
    assert(product(one.drop_last()) == 1);
    assert(one.last() == s[i]);
}

/// Leading products grow when every size is at least 1.
pub proof fn lemma_product_prefix_le(s: Seq<usize>, k: int)
    requires
        0 <= k <= s.len(),
        forall|i: int| 0 <= i < s.len() ==> #[trigger] s[i] >= 1,
    ensures
        product(s.subrange(0, k)) <= product(s),
    decreases s.len() - k,
{
    if k < s.len() {
        lemma_product_prefix_le(s, k + 1);
        assert(s.subrange(0, k + 1).drop_last() =~= s.subrange(0, k));
        lemma_product_nonnegative(s.subrange(0, k));
        assert(s.subrange(0, k + 1).last() == s[k]);
        lemma_mul_inequality(1, s[k] as int, product(s.subrange(0, k)));
        lemma_mul_is_commutative(s[k] as int, product(s.subrange(0, k)));
    } else {
        assert(s.subrange(0, k) =~= s);
    }
}

/// With every size at least 1, the whole product bounds every leading and
/// trailing product.
pub proof fn lemma_product_bounds_parts(s: Seq<usize>)
    requires
        forall|i: int| 0 <= i < s.len() ==> #[trigger] s[i] >= 1,
        product(s) <= usize::MAX,
    ensures
        prefixes_fit(s),
        suffixes_fit(s),
{
    assert forall|k: int| 0 <= k <= s.len() implies #[trigger] product(s.subrange(0, k)) <= usize::MAX by {
        lemma_product_prefix_le(s, k);
    }
    assert forall|k: int| 1 <= k <= s.len() implies #[trigger] product(s.subrange(k, s.len() as int)) <= usize::MAX by {
        lemma_product_split(s, 0, k, s.len() as int);
        assert(s.subrange(0, s.len() as int) =~= s);
        lemma_product_positive(s.subrange(0, k));
        lemma_product_nonnegative(s.subrange(k, s.len() as int));
        lemma_mul_inequality(1, product(s.subrange(0, k)), product(s.subrange(k, s.len() as int)));
    }
}

/// An index inside a shape has a Horner position below the product of the
/// sizes it ranges over.
pub proof fn lemma_horner_bound(index: Seq<usize>, shape: Seq<usize>)
    requires
        index.len() <= shape.len(),
        forall|i: int| 0 <= i < index.len() ==> #[trigger] index[i] < shape[i],
    ensures
        0 <= horner(index, shape) < product(shape.subrange(0, index.len() as int)),
    decreases index.len(),
{
    if index.len() > 0 {
        let k = index.len() - 1;
        let rest = index.drop_last();
        lemma_horner_bound(rest, shape);
        assert(shape.subrange(0, k + 1).drop_last() =~= shape.subrange(0, k));
        let h = horner(rest, shape);
        let p = product(shape.subrange(0, k));
        let s = shape[k] as int;
        let c = index[k] as int;
        assert(0 <= h * s + c < p * s) by (nonlinear_arith)
            requires
                0 <= h < p,
                0 <= c < s,
        {
            assert(h * s <= (p - 1) * s);
        }
    }
}

/// The stride sum of an index equals its Horner position, scaled by the sizes
/// of the axes it does not cover.
pub proof fn lemma_offset_horner(index: Seq<usize>, shape: Seq<usize>)
    requires
        index.len() <= shape.len(),
    ensures
        offset(index, shape) == horner(index, shape) * product(
            shape.subrange(index.len() as int, shape.len() as int),
        ),
    decreases index.len(),
{
    let n = shape.len() as int;
    if index.len() == 0 {
        assert(shape.subrange(0, n) =~= shape);
    } else {
        let k = index.len() - 1;
        let rest = index.drop_last();
        lemma_offset_horner(rest, shape);
        lemma_product_split(shape, k, k + 1, n);
        lemma_product_single(shape, k);
        let h = horner(rest, shape);
        let p = product(shape.subrange(k + 1, n));
        let s = shape[k] as int;
        let c = index[k] as int;
        assert(h * (s * p) + c * p == (h * s + c) * p) by (nonlinear_arith);
    }
}

/// Inside the shape, the stride sum and the Horner position are the same
/// number, and it lies below the product of the sizes.
pub proof fn lemma_offset_is_horner(index: Seq<usize>, shape: Seq<usize>)
    requires
        in_range(index, shape),
    ensures
        offset(index, shape) == horner(index, shape),
        0 <= horner(index, shape) < product(shape),
{
    let n = shape.len() as int;
    lemma_offset_horner(index, shape);
    assert(shape.subrange(n, n).len() == 0);
    lemma_horner_bound(index, shape);
    assert(shape.subrange(0, n) =~= shape);
}

/// The stride sum of a leading part of an index never exceeds that of the
/// whole index.
pub proof fn lemma_offset_prefix_le(index: Seq<usize>, shape: Seq<usize>, k: int)
    requires
        0 <= k <= index.len(),
    ensures
        offset(index.subrange(0, k), shape) <= offset(index, shape),
    decreases index.len() - k,
{
    if k == index.len() {
        assert(index.subrange(0, k) =~= index);
    } else {
        let rest = index.drop_last();
        lemma_offset_prefix_le(rest, shape, k);
        assert(rest.subrange(0, k) =~= index.subrange(0, k));
        lemma_product_nonnegative(shape.subrange(index.len() as int, shape.len() as int));
        lemma_mul_nonnegative(
            index.last() as int,
            stride(shape, index.len() - 1),
        );
    }
}

/// The Horner position splits at any axis `a` into the position of the
/// leading axes, scaled by the sizes after them, plus the position of the
/// trailing axes within their own shape.
pub proof fn lemma_horner_concat(index: Seq<usize>, shape: Seq<usize>, a: int)
    requires
        0 <= a <= index.len() <= shape.len(),
    ensures
        horner(index, shape) == horner(index.subrange(0, a), shape) * product(
            shape.subrange(a, index.len() as int),
        ) + horner(index.subrange(a, index.len() as int), shape.subrange(a, shape.len() as int)),
    decreases index.len(),
{
    let k = index.len() as int;
    let n = shape.len() as int;
    if k == a {
        assert(index.subrange(0, a) =~= index);
        assert(index.subrange(a, k).len() == 0);
        assert(shape.subrange(a, k).len() == 0);
    } else {
        let rest = index.drop_last();
        lemma_horner_concat(rest, shape, a);
        assert(rest.subrange(0, a) =~= index.subrange(0, a));
        assert(index.subrange(a, k).drop_last() =~= rest.subrange(a, k - 1));
        assert(shape.subrange(a, k).drop_last() =~= shape.subrange(a, k - 1));
        assert(shape.subrange(a, n)[k - 1 - a] == shape[k - 1]);
        let lead = horner(index.subrange(0, a), shape);
        let p = product(shape.subrange(a, k - 1));
        let tail = horner(rest.subrange(a, k - 1), shape.subrange(a, n));
        let s = shape[k - 1] as int;
        let c = index[k - 1] as int;
        assert((lead * p + tail) * s + c == lead * (p * s) + (tail * s + c)) by (nonlinear_arith);
    }
}

/// Decoding a flat position with the strides gives back the index it came
/// from.
pub proof fn lemma_unflatten_horner(index: Seq<usize>, shape: Seq<usize>, i: int)
    requires
        in_range(index, shape),
        0 <= i < index.len(),
    ensures
        unflatten(horner(index, shape), shape, i) == index[i] as int,
{
    let n = shape.len() as int;
    let head = index.subrange(0, i + 1);
    let tail = index.subrange(i + 1, n);
    lemma_horner_concat(index, shape, i + 1);
    let tail_shape = shape.subrange(i + 1, n);
    assert forall|j: int| 0 <= j < tail.len() implies #[trigger] tail[j] < tail_shape[j] by {
        assert(tail[j] == index[i + 1 + j]);
    }
    lemma_horner_bound(tail, tail_shape);
    assert(tail_shape.subrange(0, tail.len() as int) =~= tail_shape);
    assert(head.drop_last() =~= index.subrange(0, i));
    let h = horner(index.subrange(0, i), shape);
    let s = shape[i] as int;
    let c = index[i] as int;
    assert(horner(head, shape) == h * s + c);
    let st = stride(shape, i);
    lemma_fundamental_div_mod_converse(horner(index, shape), st, horner(head, shape), horner(tail, tail_shape));
    lemma_fundamental_div_mod_converse(h * s + c, s, h, c);
}

/// One step up along axis `i` moves the stride sum by the stride of axis
/// `i`.
pub proof fn lemma_offset_step(index: Seq<usize>, shape: Seq<usize>, i: int)
    requires
        0 <= i < index.len(),
        index[i] < usize::MAX,
    ensures
        offset(index.update(i, (index[i] + 1) as usize), shape) == offset(index, shape) + stride(shape, i),
    decreases index.len(),
{
    let k = index.len() - 1;
    let up = index.update(i, (index[i] + 1) as usize);
    if i == k {
        assert(up.drop_last() =~= index.drop_last());
        let c = index[i] as int;
        let st = stride(shape, i);
        assert((c + 1) * st == c * st + st) by (nonlinear_arith);
    } else {
        lemma_offset_step(index.drop_last(), shape, i);
        assert(up.drop_last() =~= index.drop_last().update(i, (index[i] + 1) as usize));
    }
}

/// Two indices inside a shape share a row-major position only if they are
/// the same index: every entry of a table, and every intersection of a
/// lattice, has a place of its own.
pub proof fn lemma_positions_are_distinct(a: Seq<usize>, b: Seq<usize>, shape: Seq<usize>)
    requires
        in_range(a, shape),
        in_range(b, shape),
        horner(a, shape) == horner(b, shape),
    ensures
        a == b,
{
    assert forall|i: int| 0 <= i < a.len() implies a[i] == b[i] by {
        lemma_unflatten_horner(a, shape, i);
        lemma_unflatten_horner(b, shape, i);
    }
    assert(a =~= b);
}

/// The last axis is contiguous: stepping one along it moves one place in
/// row-major order.
pub proof fn lemma_last_axis_contiguous(index: Seq<usize>, shape: Seq<usize>)
    requires
        index.len() >= 1,
        index.len() <= shape.len(),
        index.last() < usize::MAX,
    ensures
        horner(index.update(index.len() - 1, (index.last() + 1) as usize), shape) == horner(index, shape) + 1,
{
    let k = index.len() - 1;
    let next = index.update(k, (index.last() + 1) as usize);
    assert(next.drop_last() =~= index.drop_last());
}

/// `(flat % (size * stride)) / stride == (flat / stride) % size`, and the
/// remainder left after an axis is the remainder by its stride.
pub proof fn lemma_decode_step(flat: int, size: int, st: int)
    requires
        flat >= 0,
        size > 0,
        st > 0,
    ensures
        (flat % (st * size)) / st == (flat / st) % size,
        (flat % (st * size)) % st == flat % st,
{
    lemma_breakdown(flat, st, size);
    vstd::arithmetic::div_mod::lemma_mod_pos_bound(flat, st);
    vstd::arithmetic::div_mod::lemma_mod_pos_bound(flat / st, size);
    vstd::arithmetic::div_mod::lemma_div_pos_is_pos(flat, st);
    lemma_mul_is_commutative(st, (flat / st) % size);
    lemma_fundamental_div_mod_converse(flat % (st * size), st, (flat / st) % size, flat % st);
    lemma_mod_mod(flat, st, size);
}

/// Row-major strides for a shape, i.e. the last axis is contiguous.
pub fn row_major_strides(shape: &[usize]) -> (strides: Vec<usize>)
    requires
        suffixes_fit(shape@),
    ensures
        strides@.len() == shape@.len(),
        forall|i: int| 0 <= i < shape@.len() ==> #[trigger] strides@[i] as int == stride(shape@, i),
{
    let n = shape.len();
    let mut strides: Vec<usize> = Vec::with_capacity(n);
    let mut k: usize = 0;
    while k < n
        invariant
            k <= n,
            n == shape@.len(),
            strides@.len() == k,
            forall|i: int| 0 <= i < k ==> #[trigger] strides@[i] == 1usize,
        decreases n - k,
    {
        strides.push(1);
        k = k + 1;
    }
    proof {
        if n > 0 {
            assert(shape@.subrange(n as int, n as int).len() == 0);
        }
    }
    let mut i: usize = n.saturating_sub(1);
    while i > 0
        invariant
            n == shape@.len(),
            strides@.len() == n,
            n > 0 ==> i < n,
            n == 0 ==> i == 0,
            suffixes_fit(shape@),
            forall|j: int| 0 <= j < i ==> #[trigger] strides@[j] == 1usize,
            forall|j: int| i <= j < n ==> #[trigger] strides@[j] as int == stride(shape@, j),
        decreases i,
    {
        let j = i - 1;
        proof {
            lemma_product_split(shape@, j + 1, j + 2, n as int);
            lemma_product_single(shape@, j + 1);
            lemma_mul_is_commutative(shape@[j + 1] as int, stride(shape@, j + 1));
            assert(shape@.subrange(j + 1, n as int) == shape@.subrange(j + 1, n as int));
            assert(product(shape@.subrange(j + 1, n as int)) <= usize::MAX);
        }
        let next = strides[i] * shape[i];
        strides.set(j, next);
        i = j;
    }
    strides
}

/// Row-major position of `index` in a table of `shape`, or `None` if the
/// index has the wrong number of coordinates or falls outside the table.
pub fn row_major_index(shape: &[usize], index: &[usize]) -> (flat: Option<usize>)
    requires
        prefixes_fit(shape@),
    ensures
        match flat {
            Some(f) => in_range(index@, shape@) && f as int == horner(index@, shape@),
            None => !in_range(index@, shape@),
        },
{
    let n = shape.len();
    if index.len() != n {
        return None;
    }
    let mut flat: usize = 0;
    let mut i: usize = 0;
    while i < n
        invariant
            i <= n,
            n == shape@.len(),
            n == index@.len(),
            prefixes_fit(shape@),
            forall|j: int| 0 <= j < i ==> #[trigger] index@[j] < shape@[j],
            flat as int == horner(index@.subrange(0, i as int), shape@),
        decreases n - i,
    {
        let coord = index[i];
        let size = shape[i];
        if coord >= size {
            return None;
        }
        proof {
            let next = index@.subrange(0, i + 1);
            assert(next.drop_last() =~= index@.subrange(0, i as int));
            assert forall|j: int| 0 <= j < next.len() implies #[trigger] next[j] < shape@[j] by {
                assert(next[j] == index@[j]);
            }
            lemma_horner_bound(next, shape@);
            assert(product(shape@.subrange(0, i + 1)) <= usize::MAX);
            assert(horner(next, shape@) == flat * size + coord);
        }
        flat = flat * size + coord;
        i = i + 1;
    }
    proof {
        assert(index@.subrange(0, n as int) =~= index@);
    }
    Some(flat)
}

} // verus!
