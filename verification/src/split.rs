//! How work is cut into pieces: tables and pixels into chunks for threads,
//! the rows of a hair image into bands, and a shader run into dispatches.
//!
//! Every cut here is a tiling: consecutive, non-empty pieces that start at 0
//! and end exactly at the total, so every item is handled once.

use vstd::prelude::*;
use vstd::arithmetic::div_mod::{lemma_fundamental_div_mod, lemma_fundamental_div_mod_converse};

verus! {

/// Number of points below which a table is computed on a single thread.
pub const PARALLEL_THRESHOLD: usize = 16384;

/// Strands below which the hair simulation stays on one thread.
pub const PARALLEL_STRANDS: usize = 64;

/// Fewest rows worth handing a thread of its own when strands are drawn.
pub const LEAST_ROWS: usize = 64;

/// `a / b` rounded up.
pub open spec fn ceil_div(a: int, b: int) -> int {
    (a + b - 1) / b
}

/// `value` pulled into `low..=high`.
pub open spec fn clamp(value: int, low: int, high: int) -> int {
    if value < low {
        low
    } else if value > high {
        high
    } else {
        value
    }
}

/// `total` items cut into consecutive pieces of `piece` items, the last one
/// possibly shorter: each piece as its first item and its length.
pub open spec fn tiles(total: int, piece: int) -> Seq<(usize, usize)> {
    Seq::new(
        ceil_div(total, piece) as nat,
        |k: int| ((k * piece) as usize, (if piece <= total - k * piece { piece } else { total - k * piece }) as usize),
    )
}

/// The pieces are a tiling of `0..total`: the first starts at 0, each
/// starts where the one before it ends, none is empty, and the last ends at
/// `total`.
pub open spec fn is_tiling(pieces: Seq<(usize, usize)>, total: int) -> bool {
    &&& total == 0 <==> pieces.len() == 0
    &&& pieces.len() > 0 ==> pieces[0].0 == 0
    &&& forall|k: int| 0 <= k < pieces.len() ==> #[trigger] pieces[k].1 >= 1
    &&& forall|k: int| 0 <= k < pieces.len() - 1 ==> #[trigger] pieces[k + 1].0 == pieces[k].0 + pieces[k].1
    &&& pieces.len() > 0 ==> pieces.last().0 + pieces.last().1 == total
}

/// `(a + b - 1) / b` is `a / b`, plus one when `b` does not divide `a`.
pub proof fn lemma_ceil_div(a: int, b: int)
    requires
        a >= 0,
        b > 0,
    ensures
        ceil_div(a, b) == a / b + if a % b == 0 { 0int } else { 1int },
        ceil_div(a, b) * b >= a,
        ceil_div(a, b) >= 0,
        a > 0 ==> ceil_div(a, b) >= 1,
        a == 0 ==> ceil_div(a, b) == 0,
        (ceil_div(a, b) - 1) * b < a || a == 0,
{
    lemma_fundamental_div_mod(a, b);
    vstd::arithmetic::div_mod::lemma_mod_pos_bound(a, b);
    vstd::arithmetic::div_mod::lemma_div_pos_is_pos(a, b);
    let q = a / b;
    let r = a % b;
    if r == 0 {
        assert(a + b - 1 == q * b + (b - 1)) by (nonlinear_arith)
            requires
                a == b * q + r,
                r == 0,
        ;
        lemma_fundamental_div_mod_converse(a + b - 1, b, q, b - 1);
    } else {
        assert(a + b - 1 == (q + 1) * b + (r - 1)) by (nonlinear_arith)
            requires
                a == b * q + r,
        ;
        lemma_fundamental_div_mod_converse(a + b - 1, b, q + 1, r - 1);
    }
    assert(ceil_div(a, b) * b >= a && (ceil_div(a, b) - 1) * b < a || a == 0) by (nonlinear_arith)
        requires
            a == b * q + r,
            0 <= r < b,
            q >= 0,
            ceil_div(a, b) == q + if r == 0 { 0int } else { 1int },
    ;
    assert(a > 0 ==> ceil_div(a, b) >= 1) by (nonlinear_arith)
        requires
            a == b * q + r,
            0 <= r < b,
            q >= 0,
            b > 0,
            ceil_div(a, b) == q + if r == 0 { 0int } else { 1int },
    ;
    if a == 0 {
        lemma_fundamental_div_mod_converse(b - 1, b, 0, b - 1);
    }
}

/// `a / b` rounded up, without overflowing on large `a`.
pub fn div_ceil(a: usize, b: usize) -> (quotient: usize)
    requires
        b > 0,
    ensures
        quotient as int == ceil_div(a as int, b as int),
{
    proof {
        lemma_ceil_div(a as int, b as int);
        vstd::arithmetic::div_mod::lemma_div_is_ordered_by_denominator(a as int, 1, b as int);
    }
    if a % b == 0 {
        a / b
    } else {
        proof {
            lemma_fundamental_div_mod(a as int, b as int);
            vstd::arithmetic::div_mod::lemma_mod_pos_bound(a as int, b as int);
            assert(b >= 2);
            vstd::arithmetic::div_mod::lemma_div_is_ordered_by_denominator(a as int, 2, b as int);
        }
        a / b + 1
    }
}

/// Cuts `total` items into consecutive pieces of `piece` items, the last one
/// taking what is left.
pub fn tile(total: usize, piece: usize) -> (pieces: Vec<(usize, usize)>)
    requires
        piece > 0,
    ensures
        pieces@ == tiles(total as int, piece as int),
        is_tiling(pieces@, total as int),
{
    let mut pieces: Vec<(usize, usize)> = Vec::new();
    let mut start: usize = 0;
    let ghost target = tiles(total as int, piece as int);
    proof {
        lemma_ceil_div(total as int, piece as int);
    }
    while start < total
        invariant
            piece > 0,
            target == tiles(total as int, piece as int),
            ceil_div(total as int, piece as int) * piece >= total,
            total == 0 || (ceil_div(total as int, piece as int) - 1) * piece < total,
            start <= total,
            start < total ==> start as int == pieces@.len() * piece,
            start == total ==> pieces@.len() == ceil_div(total as int, piece as int),
            pieces@.len() <= ceil_div(total as int, piece as int),
            start < total ==> pieces@.len() < ceil_div(total as int, piece as int),
            pieces@ == target.subrange(0, pieces@.len() as int),
        decreases total - start,
    {
        let left = total - start;
        let rows = if piece <= left {
            piece
        } else {
            left
        };
        let ghost k = pieces@.len() as int;
        proof {
            assert(target[k] == (start, rows));
        }
        pieces.push((start, rows));
        proof {
            assert(pieces@ =~= target.subrange(0, k + 1));
            if start + rows < total {
                assert(rows == piece);
                assert((k + 1) * piece == k * piece + piece) by (nonlinear_arith);
                assert(k + 1 < ceil_div(total as int, piece as int)) by (nonlinear_arith)
                    requires
                        (k + 1) * piece < total,
                        ceil_div(total as int, piece as int) * piece >= total,
                        piece > 0,
                ;
            } else {
                assert(k + 1 == ceil_div(total as int, piece as int)) by (nonlinear_arith)
                    requires
                        k * piece < total,
                        k * piece + piece >= total,
                        k + 1 <= ceil_div(total as int, piece as int),
                        (ceil_div(total as int, piece as int) - 1) * piece < total,
                        piece > 0,
                {
                    if k + 1 < ceil_div(total as int, piece as int) {
                        assert((k + 1) * piece <= (ceil_div(total as int, piece as int) - 1) * piece);
                    }
                }
            }
        }
        start = start + rows;
    }
    proof {
        assert(pieces@ =~= target);
        lemma_tiles_tile(total as int, piece as int);
    }
    pieces
}

/// [`tiles`] is a tiling.
pub proof fn lemma_tiles_tile(total: int, piece: int)
    requires
        total >= 0,
        piece > 0,
        total <= usize::MAX,
    ensures
        is_tiling(tiles(total, piece), total),
{
    let t = tiles(total, piece);
    let count = ceil_div(total, piece);
    lemma_ceil_div(total, piece);
    if total > 0 {
        assert forall|k: int| 0 <= k < t.len() implies #[trigger] t[k].1 >= 1 by {
            assert(k * piece < total) by (nonlinear_arith)
                requires
                    0 <= k < count,
                    (count - 1) * piece < total,
                    piece > 0,
            {
                assert(k * piece <= (count - 1) * piece);
            }
            assert(0 <= k * piece) by (nonlinear_arith)
                requires
                    0 <= k,
                    piece > 0,
            ;
        }
        assert forall|k: int| 0 <= k < t.len() - 1 implies #[trigger] t[k + 1].0 == t[k].0 + t[k].1 by {
            assert((k + 1) * piece < total && (k + 1) * piece == k * piece + piece && 0 <= k * piece) by (nonlinear_arith)
                requires
                    0 <= k,
                    k + 1 < count,
                    (count - 1) * piece < total,
                    piece > 0,
            {
                assert((k + 1) * piece <= (count - 1) * piece);
            }
        }
        if t.len() > 0 {
            let k = count - 1;
            assert(0 <= k * piece < total) by (nonlinear_arith)
                requires
                    k == count - 1,
                    count >= 1,
                    (count - 1) * piece < total,
                    piece > 0,
            ;
            assert(total - k * piece <= piece) by (nonlinear_arith)
                requires
                    k == count - 1,
                    count * piece >= total,
            ;
        }
        assert(t.len() > 0);
    }
}

/// How many threads a table of `count` points is split across, and how many
/// points each takes: no more threads than there is work for at
/// [`PARALLEL_THRESHOLD`] points apiece, and the points shared as evenly as
/// whole chunks allow.
pub fn table_split(count: usize, available: usize) -> (split: (usize, usize))
    requires
        count >= PARALLEL_THRESHOLD,
    ensures
        split.0 as int == clamp(available as int, 1, ceil_div(count as int, PARALLEL_THRESHOLD as int)),
        split.1 as int == ceil_div(count as int, split.0 as int),
        split.0 >= 1,
        split.1 >= 1,
        ceil_div(count as int, split.1 as int) <= split.0,
{
    let most = div_ceil(count, PARALLEL_THRESHOLD);
    proof {
        lemma_ceil_div(count as int, PARALLEL_THRESHOLD as int);
    }
    let threads = if available < 1 {
        1
    } else if available > most {
        most
    } else {
        available
    };
    let chunk = div_ceil(count, threads);
    proof {
        lemma_ceil_div(count as int, threads as int);
        lemma_chunks_fit(count as int, threads as int, chunk as int);
    }
    (threads, chunk)
}

/// How many items each thread takes when `len` items are shared across
/// `available` threads, never less than one.
pub fn item_chunk(len: usize, available: usize) -> (chunk: usize)
    requires
        available >= 1,
    ensures
        chunk as int == if ceil_div(len as int, available as int) >= 1 {
            ceil_div(len as int, available as int)
        } else {
            1
        },
        chunk >= 1,
        ceil_div(len as int, chunk as int) <= available,
{
    let chunk = div_ceil(len, available);
    proof {
        lemma_ceil_div(len as int, available as int);
    }
    let chunk = if chunk >= 1 {
        chunk
    } else {
        1
    };
    proof {
        if len > 0 {
            lemma_chunks_fit(len as int, available as int, chunk as int);
        } else {
            lemma_ceil_div(0, chunk as int);
        }
    }
    chunk
}

/// Chunks of `ceil(count / threads)` items cover `count` items in at most
/// `threads` pieces.
proof fn lemma_chunks_fit(count: int, threads: int, chunk: int)
    requires
        count > 0,
        threads >= 1,
        chunk == ceil_div(count, threads),
    ensures
        chunk >= 1,
        ceil_div(count, chunk) <= threads,
{
    lemma_ceil_div(count, threads);
    lemma_ceil_div(count, chunk);
    assert(ceil_div(count, chunk) <= threads) by (nonlinear_arith)
        requires
            chunk * threads >= count,
            (ceil_div(count, chunk) - 1) * chunk < count,
            chunk >= 1,
    {
        if ceil_div(count, chunk) > threads {
            assert((ceil_div(count, chunk) - 1) * chunk >= threads * chunk);
        }
    }
}

/// Height of the bands a hair image of `height` rows is painted in: one band
/// per thread, but no band thinner than [`LEAST_ROWS`] unless the image is.
pub open spec fn band_height(height: int, available: int) -> int {
    let threads = clamp(available, 1, ceil_div(height, LEAST_ROWS as int));
    let band = ceil_div(height, threads);
    if band >= 1 {
        band
    } else {
        1
    }
}

/// The bands of rows a hair image is painted in, one thread each: their
/// first row and how many rows they cover, top to bottom.
pub fn bands(height: usize, available: usize) -> (bands: Vec<(usize, usize)>)
    requires
        height > 0,
    ensures
        bands@ == tiles(height as int, band_height(height as int, available as int)),
        is_tiling(bands@, height as int),
{
    let most = div_ceil(height, LEAST_ROWS);
    proof {
        lemma_ceil_div(height as int, LEAST_ROWS as int);
    }
    let threads = if available < 1 {
        1
    } else if available > most {
        most
    } else {
        available
    };
    let band = div_ceil(height, threads);
    let band = if band >= 1 {
        band
    } else {
        1
    };
    tile(height, band)
}

} // verus!
