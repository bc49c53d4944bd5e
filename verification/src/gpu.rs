//! What a compute shader run over a refined lattice is told, and how it is
//! cut into dispatches.
//!
//! The shader works in 32 bit integers, so every lattice number it reads has
//! to fit in a `u32`, and it reads four arrays of `dims.len()` values: the
//! cells per axis, the divisors, the strides of the table and the strides of
//! the lattice. One invocation evaluates one point of the table; a dispatch
//! is capped in workgroups, so a large table takes several dispatches, each
//! with its own first point.

use vstd::prelude::*;

use crate::error::{Buffer, NoiseError};
use crate::split::{ceil_div, div_ceil, is_tiling, lemma_ceil_div, tile, tiles};

verus! {

/// Most dimensions the shader's fixed size arrays hold.
pub const SHADER_MAX_DIMS: usize = 16;

/// Invocations per workgroup, as declared by the shader.
pub const WORKGROUP_SIZE: u32 = 64;

/// Checks that the shader can evaluate a table of `count` points of an
/// `n` dimensional field, and returns the point count as the shader holds it.
pub fn shader_point_count(n: usize, count: usize) -> (points: Result<u32, NoiseError>)
    ensures
        n > SHADER_MAX_DIMS ==> points == Err::<u32, NoiseError>(NoiseError::ShaderDimensions),
        n <= SHADER_MAX_DIMS && count > u32::MAX ==> points == Err::<u32, NoiseError>(
            NoiseError::ShaderPointCount,
        ),
        n <= SHADER_MAX_DIMS && count <= u32::MAX ==> points == Ok::<u32, NoiseError>(count as u32),
{
    if n > SHADER_MAX_DIMS {
        return Err(NoiseError::ShaderDimensions);
    }
    if count > u32::MAX as usize {
        return Err(NoiseError::ShaderPointCount);
    }
    Ok(count as u32)
}

/// Checks that a buffer of `elements` 32 bit values fits in the `budget`
/// bytes the adapter allows a storage buffer.
pub fn check_buffer(buffer: Buffer, elements: usize, budget: u64) -> (checked: Result<(), NoiseError>)
    requires
        elements * 4 <= usize::MAX,
    ensures
        elements * 4 <= budget ==> checked is Ok,
        elements * 4 > budget ==> checked == Err::<(), NoiseError>(
            NoiseError::BufferTooLarge { buffer, needed: (elements * 4) as u64, budget },
        ),
{
    let needed = (elements * 4) as u64;
    if needed > budget {
        return Err(NoiseError::BufferTooLarge { buffer, needed, budget });
    }
    Ok(())
}

/// The four arrays the shader reads, one after the other: `dims`,
/// `divisors`, the table strides and the lattice strides.
pub open spec fn axes(
    dims: Seq<usize>,
    divisors: Seq<usize>,
    table_strides: Seq<usize>,
    lattice_strides: Seq<usize>,
) -> Seq<usize> {
    dims + divisors + table_strides + lattice_strides
}

/// Appends `values` to `words` as 32 bit integers, or reports that one of
/// them does not fit, leaving `words` with what came before it.
fn push_words(words: &mut Vec<u32>, values: &[usize]) -> (fits: bool)
    ensures
        fits ==> {
            &&& final(words)@.len() == old(words)@.len() + values@.len()
            &&& forall|i: int| 0 <= i < old(words)@.len() ==> #[trigger] final(words)@[i] == old(words)@[i]
            &&& forall|j: int| 0 <= j < values@.len() ==> #[trigger] final(words)@[old(words)@.len() + j] as int
                == values@[j] as int
        },
        !fits ==> exists|j: int| 0 <= j < values@.len() && #[trigger] values@[j] > u32::MAX,
{
    let ghost before = words@;
    let mut k: usize = 0;
    while k < values.len()
        invariant
            k <= values@.len(),
            words@.len() == before.len() + k,
            forall|i: int| 0 <= i < before.len() ==> #[trigger] words@[i] == before[i],
            forall|j: int| 0 <= j < k ==> #[trigger] words@[before.len() + j] as int == values@[j] as int,
        decreases values@.len() - k,
    {
        let value = values[k];
        if value > u32::MAX as usize {
            assert(values@[k as int] > u32::MAX);
            return false;
        }
        words.push(value as u32);
        proof {
            assert(words@[before.len() + k] as int == values@[k as int] as int);
        }
        k = k + 1;
    }
    true
}

/// The shader's axes as 32 bit integers, or why they cannot be: a value
/// that does not fit.
pub fn shader_axes(
    dims: &[usize],
    divisors: &[usize],
    table_strides: &[usize],
    lattice_strides: &[usize],
) -> (words: Result<Vec<u32>, NoiseError>)
    ensures
        match words {
            Ok(w) => {
                let all = axes(dims@, divisors@, table_strides@, lattice_strides@);
                &&& w@.len() == all.len()
                &&& forall|i: int| 0 <= i < all.len() ==> #[trigger] w@[i] as int == all[i] as int
            },
            Err(e) => {
                &&& e == NoiseError::ShaderIntegers
                &&& exists|i: int|
                    0 <= i < axes(dims@, divisors@, table_strides@, lattice_strides@).len()
                        && #[trigger] axes(dims@, divisors@, table_strides@, lattice_strides@)[i] > u32::MAX
            },
        },
{
    let ghost all = axes(dims@, divisors@, table_strides@, lattice_strides@);
    let ghost a = dims@;
    let ghost b = divisors@;
    let ghost c = table_strides@;
    let ghost d = lattice_strides@;
    let mut words: Vec<u32> = Vec::new();
    if !push_words(&mut words, dims) {
        proof {
            let j = choose|j: int| 0 <= j < a.len() && #[trigger] a[j] > u32::MAX;
            assert(all[j] == a[j]);
        }
        return Err(NoiseError::ShaderIntegers);
    }
    let ghost w1 = words@;
    if !push_words(&mut words, divisors) {
        proof {
            let j = choose|j: int| 0 <= j < b.len() && #[trigger] b[j] > u32::MAX;
            assert(all[a.len() + j] == b[j]);
        }
        return Err(NoiseError::ShaderIntegers);
    }
    let ghost w2 = words@;
    if !push_words(&mut words, table_strides) {
        proof {
            let j = choose|j: int| 0 <= j < c.len() && #[trigger] c[j] > u32::MAX;
            assert(all[a.len() + b.len() + j] == c[j]);
        }
        return Err(NoiseError::ShaderIntegers);
    }
    let ghost w3 = words@;
    if !push_words(&mut words, lattice_strides) {
        proof {
            let j = choose|j: int| 0 <= j < d.len() && #[trigger] d[j] > u32::MAX;
            assert(all[a.len() + b.len() + c.len() + j] == d[j]);
        }
        return Err(NoiseError::ShaderIntegers);
    }
    proof {
        assert forall|i: int| 0 <= i < all.len() implies #[trigger] words@[i] as int == all[i] as int by {
            if i < a.len() {
                assert(w1[0 + i] as int == a[i] as int);
                assert(words@[i] == w3[i]);
                assert(w3[i] == w2[i]);
                assert(w2[i] == w1[i]);
            } else if i < a.len() + b.len() {
                assert(w2[a.len() + (i - a.len())] as int == b[i - a.len()] as int);
                assert(words@[i] == w3[i]);
                assert(w3[i] == w2[i]);
            } else if i < a.len() + b.len() + c.len() {
                assert(w3[a.len() + b.len() + (i - a.len() - b.len())] as int == c[i - a.len() - b.len()] as int);
                assert(words@[i] == w3[i]);
            } else {
                assert(words@[a.len() + b.len() + c.len() + (i - a.len() - b.len() - c.len())] as int
                    == d[i - a.len() - b.len() - c.len()] as int);
            }
        }
    }
    Ok(words)
}

/// The four bytes of a word, least significant first.
pub open spec fn le_bytes(word: u32) -> Seq<u8> {
    seq![
        (word & 0xffu32) as u8,
        ((word >> 8u32) & 0xffu32) as u8,
        ((word >> 16u32) & 0xffu32) as u8,
        ((word >> 24u32) & 0xffu32) as u8,
    ]
}

/// The four bytes of a word, most significant first.
pub open spec fn be_bytes(word: u32) -> Seq<u8> {
    seq![
        ((word >> 24u32) & 0xffu32) as u8,
        ((word >> 16u32) & 0xffu32) as u8,
        ((word >> 8u32) & 0xffu32) as u8,
        (word & 0xffu32) as u8,
    ]
}

/// Words written out four bytes each, one after the other, every word in
/// the same byte order: least significant first when `little`, most
/// significant first otherwise.
pub open spec fn words_in_order(words: Seq<u32>, little: bool) -> Seq<u8> {
    Seq::new(
        4 * words.len(),
        |i: int|
            if little {
                le_bytes(words[i / 4])[i % 4]
            } else {
                be_bytes(words[i / 4])[i % 4]
            },
    )
}

/// `bytes` are `words` laid out four bytes each, all in one byte order,
/// whichever the machine uses.
pub open spec fn laid_out(bytes: Seq<u8>, words: Seq<u32>) -> bool {
    bytes == words_in_order(words, true) || bytes == words_in_order(words, false)
}

/// The shader's axes as the 32 bit words it reads.
pub open spec fn axes_words(
    dims: Seq<usize>,
    divisors: Seq<usize>,
    table_strides: Seq<usize>,
    lattice_strides: Seq<usize>,
) -> Seq<u32> {
    let all = axes(dims, divisors, table_strides, lattice_strides);
    Seq::new(all.len(), |i: int| all[i] as u32)
}

/// The bytes of 32 bit words as the machine lays them out in memory.
///
/// Calls `bytemuck::cast_slice::<u32, u8>`, which reinterprets the words'
/// own memory as bytes (it cannot fail for this pair of types: a byte needs
/// no alignment and every length divides by one), and copies the result. A
/// word is stored in memory in the machine's byte order, least or most
/// significant byte first, the same order for every word; the contract says
/// that the bytes are the words in one of the two orders, and not which.
#[verifier::external_body]
fn word_bytes(words: &[u32]) -> (bytes: Vec<u8>)
    ensures
        laid_out(bytes@, words@),
{
    bytemuck::cast_slice::<u32, u8>(words).to_vec()
}

/// The axes buffer uploaded to the shader: the words of [`shader_axes`] —
/// dims, divisors, table strides and lattice strides, in that order — four
/// bytes each in the machine's byte order.
pub fn axes_buffer(
    dims: &[usize],
    divisors: &[usize],
    table_strides: &[usize],
    lattice_strides: &[usize],
) -> (bytes: Result<Vec<u8>, NoiseError>)
    ensures
        match bytes {
            Ok(b) => {
                let all = axes(dims@, divisors@, table_strides@, lattice_strides@);
                &&& forall|i: int| 0 <= i < all.len() ==> #[trigger] all[i] <= u32::MAX
                &&& laid_out(b@, axes_words(dims@, divisors@, table_strides@, lattice_strides@))
                &&& b@.len() == 4 * all.len()
            },
            Err(e) => {
                &&& e == NoiseError::ShaderIntegers
                &&& exists|i: int|
                    0 <= i < axes(dims@, divisors@, table_strides@, lattice_strides@).len()
                        && #[trigger] axes(dims@, divisors@, table_strides@, lattice_strides@)[i] > u32::MAX
            },
        },
{
    match shader_axes(dims, divisors, table_strides, lattice_strides) {
        Ok(words) => {
            let ghost all = axes(dims@, divisors@, table_strides@, lattice_strides@);
            assert forall|i: int| 0 <= i < all.len() implies #[trigger] all[i] <= u32::MAX by {
                assert(words@[i] as int == all[i] as int);
            }
            assert(words@ =~= axes_words(dims@, divisors@, table_strides@, lattice_strides@));
            Ok(word_bytes(words.as_slice()))
        },
        Err(e) => Err(e),
    }
}

/// The four parameters of one dispatch: the dimension count, the point
/// count, the first point of the dispatch and the `2^n` corners of a cell.
pub fn params_words(n_dims: u32, n_points: u32, point_offset: u32) -> (words: [u32; 4])
    requires
        n_dims <= SHADER_MAX_DIMS,
    ensures
        words[0] == n_dims,
        words[1] == n_points,
        words[2] == point_offset,
        words[3] as nat == vstd::arithmetic::power2::pow2(n_dims as nat),
{
    proof {
        vstd::arithmetic::power2::lemma_pow2_strictly_increases(n_dims as nat, 32);
        vstd::bits::lemma_u32_pow2_no_overflow(n_dims as nat);
        vstd::bits::lemma_u32_shl_is_mul(1, n_dims);
    }
    let corners = 1u32 << n_dims;
    let words = [n_dims, n_points, point_offset, corners];
    assert(words[3] == corners);
    words
}

/// The parameter buffer of one dispatch: the words of [`params_words`] —
/// dimension count, point count, first point and corner count, in that
/// order — four bytes each in the machine's byte order.
pub fn params_buffer(n_dims: u32, n_points: u32, point_offset: u32) -> (bytes: Vec<u8>)
    requires
        n_dims <= SHADER_MAX_DIMS,
    ensures
        laid_out(
            bytes@,
            seq![n_dims, n_points, point_offset, vstd::arithmetic::power2::pow2(n_dims as nat) as u32],
        ),
        bytes@.len() == 16,
{
    let words = params_words(n_dims, n_points, point_offset);
    let list = vec![words[0], words[1], words[2], words[3]];
    assert(list@ =~= seq![n_dims, n_points, point_offset, vstd::arithmetic::power2::pow2(n_dims as nat) as u32]);
    word_bytes(list.as_slice())
}

/// Points one dispatch covers at most: `max_workgroups` workgroups of
/// [`WORKGROUP_SIZE`] invocations, saturating at the largest `u32`.
pub open spec fn dispatch_stride(max_workgroups: u32) -> int {
    if max_workgroups * 64 > u32::MAX {
        u32::MAX as int
    } else {
        max_workgroups * 64
    }
}

/// The dispatches of a run over `n_points` points: for each, its first point
/// and how many workgroups it launches. The points are tiled by stretches of
/// [`dispatch_stride`]; an empty table still gets one dispatch, of no
/// workgroups.
pub open spec fn dispatch_plan_spec(n_points: u32, max_workgroups: u32) -> Seq<(u32, u32)> {
    let pieces = tiles(n_points as int, dispatch_stride(max_workgroups));
    if pieces.len() == 0 {
        seq![(0u32, 0u32)]
    } else {
        Seq::new(
            pieces.len(),
            |k: int| (pieces[k].0 as u32, ceil_div(pieces[k].1 as int, WORKGROUP_SIZE as int) as u32),
        )
    }
}

/// Cuts a shader run over `n_points` points into dispatches of at most
/// `max_workgroups` workgroups.
pub fn dispatch_plan(n_points: u32, max_workgroups: u32) -> (plan: Vec<(u32, u32)>)
    requires
        max_workgroups > 0,
    ensures
        plan@ == dispatch_plan_spec(n_points, max_workgroups),
        is_tiling(tiles(n_points as int, dispatch_stride(max_workgroups)), n_points as int),
        forall|k: int| 0 <= k < plan@.len() ==> #[trigger] plan@[k].1 as int * WORKGROUP_SIZE >= (
            if n_points == 0 { 0 } else { tiles(n_points as int, dispatch_stride(max_workgroups))[k].1 as int }),
{
    let stride = match max_workgroups.checked_mul(WORKGROUP_SIZE) {
        Some(stride) => stride,
        None => u32::MAX,
    };
    assert(stride as int == dispatch_stride(max_workgroups));
    let pieces = tile(n_points as usize, stride as usize);
    let ghost target = dispatch_plan_spec(n_points, max_workgroups);
    if pieces.len() == 0 {
        let plan = vec![(0u32, 0u32)];
        assert(plan@ =~= target);
        return plan;
    }
    let mut plan: Vec<(u32, u32)> = Vec::with_capacity(pieces.len());
    let mut k: usize = 0;
    while k < pieces.len()
        invariant
            k <= pieces@.len(),
            pieces@.len() > 0,
            pieces@ == tiles(n_points as int, stride as int),
            is_tiling(pieces@, n_points as int),
            stride > 0,
            target == dispatch_plan_spec(n_points, max_workgroups),
            stride as int == dispatch_stride(max_workgroups),
            plan@ == target.subrange(0, k as int),
            forall|j: int| 0 <= j < k ==> #[trigger] plan@[j].1 as int * WORKGROUP_SIZE >= pieces@[j].1 as int,
        decreases pieces@.len() - k,
    {
        let (first, count) = pieces[k];
        proof {
            lemma_tile_bounds(pieces@, n_points as int, k as int);
            lemma_ceil_div(count as int, WORKGROUP_SIZE as int);
            vstd::arithmetic::div_mod::lemma_div_is_ordered(
                count as int + WORKGROUP_SIZE - 1,
                u32::MAX as int + WORKGROUP_SIZE - 1,
                WORKGROUP_SIZE as int,
            );
        }
        let groups = div_ceil(count, WORKGROUP_SIZE as usize);
        plan.push((first as u32, groups as u32));
        proof {
            assert(plan@ =~= target.subrange(0, k + 1));
        }
        k = k + 1;
    }
    assert(plan@ =~= target);
    plan
}

/// Each piece of a tiling of `0..total` lies inside it.
proof fn lemma_tile_bounds(pieces: Seq<(usize, usize)>, total: int, k: int)
    requires
        is_tiling(pieces, total),
        0 <= k < pieces.len(),
    ensures
        pieces[k].0 + pieces[k].1 <= total,
    decreases pieces.len() - k,
{
    if k < pieces.len() - 1 {
        lemma_tile_bounds(pieces, total, k + 1);
    }
}

} // verus!
