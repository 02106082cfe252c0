//! The tiled layout and the exact integer sums of INT8 matrix products.

use crate::cpu::attention::{ceil_div, div_ceil, next_multiple, round_up};
use vstd::arithmetic::div_mod::*;
use vstd::arithmetic::mul::*;
use vstd::prelude::*;

verus! {

/// Values of `k` per group.
pub const KG: usize = 8;

/// Rows per tile, on both sides.
pub const TILE: usize = 8;

/// Rows of `x` per task, a multiple of a tile.
pub const MB: usize = 64;

/// Bytes of a tiled matrix of `rows` by `k`.
pub fn tiled_len(rows: usize, k: usize) -> (r: usize)
    requires
        round_up(rows as int, 8) * round_up(k as int, 8) <= usize::MAX,
        round_up(rows as int, 8) <= usize::MAX,
        round_up(k as int, 8) <= usize::MAX,
    ensures
        r == round_up(rows as int, 8) * round_up(k as int, 8),
{
    next_multiple(rows, TILE) * next_multiple(k, KG)
}

/// Where value `p` of row `r` sits in a tiled matrix with rows of `k`: tiles of eight rows, in a
/// tile the groups of eight columns, in a group the rows one after the other.
pub open spec fn tile_at(r: int, p: int, k: int) -> int {
    r / 8 * (round_up(k, 8) * 8) + p / 8 * 64 + r % 8 * 8 + p % 8
}

/// Bytes of scratch a task needs for its rows of `x`, as four byte values.
pub fn scratch_len(k: usize) -> (r: usize)
    requires
        64 * round_up(k as int, 8) <= usize::MAX,
    ensures
        r == 16 * round_up(k as int, 8) + 64,
{
    let t: usize = tiled_len(MB, k);
    assert(t == 64 * round_up(k as int, 8));
    div_ceil(t, 4) + MB
}

/// The parts of a place: the rows before its tile end where the tile starts, and within the tile
/// the place is its group, its pair of rows, its row of the pair and its column.
proof fn place_parts(r: int, p: int, k: int)
    requires
        0 <= r,
        0 <= p < k,
    ensures
        ({
            let tile = r / 8 * (round_up(k, 8) * 8);
            let inner = p / 8 * 64 + r % 8 / 2 * 16 + r % 2 * 8 + p % 8;
            &&& 0 <= tile
            &&& 0 <= inner
            &&& tile + inner == tile_at(r, p, k)
            &&& tile_at(r, p, k) < (r / 8 + 1) * (round_up(k, 8) * 8)
        }),
{
    tile_at_in(r, p, k);
    lemma_mul_nonnegative(r / 8, round_up(k, 8) * 8);
    assert(r % 8 / 2 * 2 + r % 2 == r % 8);
}

/// Where value `p` of row `r` sits in a tiled matrix with rows of `k`.
#[verifier::spinoff_prover]
pub fn at(r: usize, p: usize, k: usize) -> (i: usize)
    requires
        p < k,
        round_up(k as int, 8) <= usize::MAX,
        (r / 8 + 1) * (round_up(k as int, 8) * 8) <= usize::MAX,
    ensures
        i == tile_at(r as int, p as int, k as int),
        i < (r / 8 + 1) * (round_up(k as int, 8) * 8),
{
    let w: usize = next_multiple(k, KG);
    proof {
        place_parts(r as int, p as int, k as int);
        one_more_tile((r / 8) as int, w * 8);
    }
    let tile: usize = r / TILE * (w * 8);
    let inner: usize = p / KG * 64 + r % TILE / 2 * 16 + r % 2 * 8 + p % KG;
    tile + inner
}

/// The places before the end of a tile are those of the tiles before it and its own.
proof fn one_more_tile(t: int, w: int)
    requires
        0 <= t,
        0 <= w,
    ensures
        (t + 1) * w == t * w + w,
        0 <= t * w,
{
    lemma_mul_is_distributive_add_other_way(w, t, 1);
    lemma_mul_nonnegative(t, w);
}

/// A place lies in its own tile.
pub proof fn tile_at_in(r: int, p: int, k: int)
    requires
        0 <= r,
        0 <= p < k,
    ensures
        r / 8 * (round_up(k, 8) * 8) <= tile_at(r, p, k) < (r / 8 + 1) * (round_up(k, 8) * 8),
        p / 8 * 64 + r % 8 * 8 + p % 8 < round_up(k, 8) * 8,
{
    let w = round_up(k, 8);
    assert((r / 8 + 1) * (w * 8) == (r / 8) * (w * 8) + w * 8) by (nonlinear_arith);
    assert(p / 8 * 64 + r % 8 * 8 + p % 8 < w * 8);
}

/// Different values of a tiled matrix never share a place, and every place is inside it.
pub proof fn tiles_keep_values_apart(rows: int, k: int, r: int, p: int, s: int, q: int)
    requires
        0 <= r < rows,
        0 <= s < rows,
        0 <= p < k,
        0 <= q < k,
    ensures
        0 <= tile_at(r, p, k) < round_up(rows, 8) * round_up(k, 8),
        tile_at(r, p, k) == tile_at(s, q, k) ==> r == s && p == q,
{
    let w = round_up(k, 8) * 8;
    tile_at_in(r, p, k);
    tile_at_in(s, q, k);
    lemma_mul_nonnegative(r / 8, w);
    assert(tile_at(r, p, k) < round_up(rows, 8) * round_up(k, 8)) by {
        tiles_of(rows, k, r);
    }
    if tile_at(r, p, k) == tile_at(s, q, k) {
        if r / 8 < s / 8 {
            assert((r / 8 + 1) * w <= s / 8 * w) by (nonlinear_arith)
                requires
                    r / 8 + 1 <= s / 8,
                    w >= 0,
            ;
        }
        if s / 8 < r / 8 {
            assert((s / 8 + 1) * w <= r / 8 * w) by (nonlinear_arith)
                requires
                    s / 8 + 1 <= r / 8,
                    w >= 0,
            ;
        }
        digits_apart(p / 8, r % 8, p % 8, q / 8, s % 8, q % 8);
    }
}

/// The tile of a row ends inside the matrix.
proof fn tiles_of(rows: int, k: int, r: int)
    requires
        0 <= r < rows,
        0 <= k,
    ensures
        (r / 8 + 1) * (round_up(k, 8) * 8) <= round_up(rows, 8) * round_up(k, 8),
{
    let n = (rows + 7) / 8;
    let w = round_up(k, 8);
    assert(r / 8 + 1 <= n);
    assert((r / 8 + 1) * (w * 8) <= n * (w * 8)) by (nonlinear_arith)
        requires
            r / 8 + 1 <= n,
            w >= 0,
    ;
    assert(n * (w * 8) == (n * 8) * w) by (nonlinear_arith);
}

/// A number has one way to be written with two digits below eight.
proof fn digits_apart(a: int, b: int, c: int, x: int, y: int, z: int)
    requires
        0 <= b < 8,
        0 <= c < 8,
        0 <= y < 8,
        0 <= z < 8,
        a * 64 + b * 8 + c == x * 64 + y * 8 + z,
    ensures
        a == x && b == y && c == z,
{
}

/// The sum of the products of the first `n` values of row `i` of a tile and row `j` of another.
pub open spec fn tile_dot(x: Seq<i8>, w: Seq<i8>, i: int, j: int, n: int) -> int
    decreases n,
{
    if n <= 0 {
        0
    } else {
        let p = n - 1;
        tile_dot(x, w, i, j, p) + x[p / 8 * 64 + i * 8 + p % 8] * w[p / 8 * 64 + j * 8 + p % 8]
    }
}

/// One sum of a tile of `x` against a tile of `w`.
fn tile_cell(x: &[i8], w: &[i8], i: usize, j: usize) -> (r: i32)
    requires
        x@.len() == w@.len(),
        x@.len() < 64 * 16384,
        i < 8,
        j < 8,
    ensures
        r == tile_dot(x@, w@, i as int, j as int, x@.len() as int / 64 * 8),
{
    let n: usize = x.len() / 64 * 8;
    let mut p: usize = 0;
    let mut sum: i32 = 0;
    while p < n
        invariant
            p <= n,
            n == x@.len() as int / 64 * 8,
            x@.len() == w@.len(),
            x@.len() < 64 * 16384,
            i < 8,
            j < 8,
            sum == tile_dot(x@, w@, i as int, j as int, p as int),
            -16384 * p <= sum <= 16384 * p,
        decreases n - p,
    {
        assert(p / 8 * 64 + 63 < x@.len());
        let a: i32 = x[p / 8 * 64 + i * 8 + p % 8] as i32;
        let b: i32 = w[p / 8 * 64 + j * 8 + p % 8] as i32;
        assert(-16384 <= a * b <= 16384) by (nonlinear_arith)
            requires
                -128 <= a <= 127,
                -128 <= b <= 127,
        ;
        sum += a * b;
        p += 1;
    }
    sum
}

/// Row `i` of `x` against every row of `w`.
fn tile_row(x: &[i8], w: &[i8], i: usize) -> (r: [i32; 8])
    requires
        x@.len() == w@.len(),
        x@.len() < 64 * 16384,
        i < 8,
    ensures
        forall|j: int|
            0 <= j < 8 ==> #[trigger] r@[j] == tile_dot(x@, w@, i as int, j, x@.len() as int / 64 * 8),
{
    [
        tile_cell(x, w, i, 0),
        tile_cell(x, w, i, 1),
        tile_cell(x, w, i, 2),
        tile_cell(x, w, i, 3),
        tile_cell(x, w, i, 4),
        tile_cell(x, w, i, 5),
        tile_cell(x, w, i, 6),
        tile_cell(x, w, i, 7),
    ]
}

/// A tile of `x` against a tile of `w`: row `i` of `x` against row `j` of `w`, summed exactly. A
/// tail that is no whole group is left out.
pub fn tile_scalar(x: &[i8], w: &[i8]) -> (r: [[i32; 8]; 8])
    requires
        x@.len() == w@.len(),
        x@.len() < 64 * 16384,
    ensures
        forall|i: int, j: int|
            0 <= i < 8 && 0 <= j < 8 ==> #[trigger] r@[i]@[j] == tile_dot(
                x@,
                w@,
                i,
                j,
                x@.len() as int / 64 * 8,
            ),
{
    [
        tile_row(x, w, 0),
        tile_row(x, w, 1),
        tile_row(x, w, 2),
        tile_row(x, w, 3),
        tile_row(x, w, 4),
        tile_row(x, w, 5),
        tile_row(x, w, 6),
        tile_row(x, w, 7),
    ]
}

/// Writes the rounded values of a row into row `r` of the tiled `q`, and nothing else.
pub fn place_row(row: &[i8], r: usize, q: &mut Vec<i8>)
    requires
        round_up(row@.len() as int, 8) <= usize::MAX,
        (r / 8 + 1) * (round_up(row@.len() as int, 8) * 8) <= old(q)@.len(),
    ensures
        final(q)@.len() == old(q)@.len(),
        forall|p: int|
            0 <= p < row@.len() ==> final(q)@[#[trigger] tile_at(r as int, p, row@.len() as int)]
                == row@[p],
        forall|i: int|
            0 <= i < old(q)@.len() && (forall|p: int|
                0 <= p < row@.len() ==> #[trigger] tile_at(r as int, p, row@.len() as int) != i)
                ==> #[trigger] final(q)@[i] == old(q)@[i],
{
    let k: usize = row.len();
    let ghost before = q@;
    let mut p: usize = 0;
    while p < k
        invariant
            p <= k == row@.len(),
            round_up(k as int, 8) <= usize::MAX,
            before.len() == q@.len(),
            (r / 8 + 1) * (round_up(k as int, 8) * 8) <= q@.len(),
            forall|c: int| 0 <= c < p ==> q@[#[trigger] tile_at(r as int, c, k as int)] == row@[c],
            forall|i: int|
                0 <= i < before.len() && (forall|c: int|
                    0 <= c < k ==> #[trigger] tile_at(r as int, c, k as int) != i)
                    ==> #[trigger] q@[i] == before[i],
        decreases k - p,
    {
        let _whole: usize = q.len();
        let i: usize = at(r, p, k);
        let v: i8 = row[p];
        proof {
            assert forall|c: int| 0 <= c < p implies #[trigger] tile_at(r as int, c, k as int)
                != i by {
                tiles_keep_values_apart(r + 1, k as int, r as int, c, r as int, p as int);
            }
            assert forall|c: int| 0 <= c < p implies 0 <= #[trigger] tile_at(
                r as int,
                c,
                k as int,
            ) < q@.len() by {
                tile_at_in(r as int, c, k as int);
                lemma_mul_nonnegative((r / 8) as int, round_up(k as int, 8) * 8);
            }
        }
        q.set(i, v);
        p += 1;
    }
}

/// The sum of the products of the first `n` values of row `r` of a tiled matrix and row `j` of
/// another, both with rows of `k`.
pub open spec fn row_dot(x: Seq<i8>, w: Seq<i8>, r: int, j: int, k: int, n: int) -> int
    decreases n,
{
    if n <= 0 {
        0
    } else {
        row_dot(x, w, r, j, k, n - 1) + x[tile_at(r, n - 1, k)] * w[tile_at(j, n - 1, k)]
    }
}

/// The tail of every row of a tiled matrix of `rows` rows is zeros.
pub open spec fn padded(w: Seq<i8>, rows: int, k: int) -> bool {
    forall|j: int, p: int|
        0 <= j < rows && k <= p < round_up(k, 8) ==> w[#[trigger] tile_at(j, p, k)] == 0
}

/// A row of a tile is a row of the matrix.
proof fn tile_is_rows(
    x: Seq<i8>,
    w: Seq<i8>,
    ti: int,
    tj: int,
    i: int,
    j: int,
    k: int,
    n: int,
)
    requires
        0 <= ti,
        0 <= tj,
        0 <= i < 8,
        0 <= j < 8,
        0 <= k,
        n <= round_up(k, 8),
        (ti + 1) * (round_up(k, 8) * 8) <= x.len(),
        (tj + 1) * (round_up(k, 8) * 8) <= w.len(),
    ensures
        ({
            let size = round_up(k, 8) * 8;
            tile_dot(
                x.subrange(ti * size, (ti + 1) * size),
                w.subrange(tj * size, (tj + 1) * size),
                i,
                j,
                n,
            ) == row_dot(x, w, 8 * ti + i, 8 * tj + j, k, n)
        }),
    decreases n,
{
    let size = round_up(k, 8) * 8;
    lemma_mul_nonnegative(ti, size);
    lemma_mul_nonnegative(tj, size);
    assert((ti + 1) * size == ti * size + size) by (nonlinear_arith);
    assert((tj + 1) * size == tj * size + size) by (nonlinear_arith);
    if n > 0 {
        tile_is_rows(x, w, ti, tj, i, j, k, n - 1);
        let p = n - 1;
        let (a, b) = (p / 8 * 64 + i * 8 + p % 8, p / 8 * 64 + j * 8 + p % 8);
        assert(0 <= a < size && 0 <= b < size);
        assert(tile_at(8 * ti + i, p, k) == ti * size + a);
        assert(tile_at(8 * tj + j, p, k) == tj * size + b);
    }
}

/// Zeros at the end of a row add nothing.
proof fn tail_adds_nothing(x: Seq<i8>, w: Seq<i8>, r: int, j: int, k: int, rows: int, n: int)
    requires
        padded(w, rows, k),
        0 <= j < rows,
        0 <= k <= n <= round_up(k, 8),
    ensures
        row_dot(x, w, r, j, k, n) == row_dot(x, w, r, j, k, k),
    decreases n,
{
    if n > k {
        tail_adds_nothing(x, w, r, j, k, rows, n - 1);
        assert(w[tile_at(j, n - 1, k)] == 0);
    }
}

/// The columns of a task: those of its tiles that the product has.
pub open spec fn columns(p: Part, n: int) -> int {
    (if 8 * p.t1 < n {
        8 * p.t1
    } else {
        n
    }) - 8 * p.t0
}

/// The first columns of a row of sums are right.
spec fn sums_right(row: Seq<i32>, x: Seq<i8>, w: Seq<i8>, r: int, p: Part, k: int) -> bool {
    forall|c: int|
        0 <= c < row.len() ==> #[trigger] row[c] == row_dot(x, w, r, 8 * p.t0 + c, k, k)
}

/// The exact sums of one task: every row of `x` that the task holds against every column of the
/// task. `x` is tiled with the task's first row first, and `w` is the whole tiled weight.
#[verifier::rlimit(60)]
pub fn part_sums(x: &Vec<i8>, w: &Vec<i8>, k: usize, n: usize, p: Part) -> (r: Vec<Vec<i32>>)
    requires
        round_up(k as int, 8) * 8 < 64 * 16384,
        p.t0 < p.t1,
        p.t1 <= ceil_div(n as int, 8),
        ceil_div(p.rows as int, 8) * (round_up(k as int, 8) * 8) <= x@.len(),
        ceil_div(n as int, 8) * (round_up(k as int, 8) * 8) <= w@.len(),
        padded(w@, 8 * ceil_div(n as int, 8), k as int),
    ensures
        r@.len() == p.rows,
        forall|i: int| #![trigger r@[i]]
            0 <= i < p.rows ==> r@[i]@.len() == columns(p, n as int) && forall|c: int|
                0 <= c < r@[i]@.len() ==> #[trigger] r@[i]@[c] == row_dot(
                    x@,
                    w@,
                    i,
                    8 * p.t0 + c,
                    k as int,
                    k as int,
                ),
{
    let size: usize = next_multiple(k, KG) * 8;
    let _all: usize = x.len();
    let _most: usize = w.len();
    let mut out: Vec<Vec<i32>> = Vec::new();
    let mut i: usize = 0;
    while i < p.rows
        invariant
            i <= p.rows,
            out@.len() == i,
            forall|r: int| 0 <= r < i ==> (#[trigger] out@[r])@.len() == 0,
        decreases p.rows - i,
    {
        out.push(Vec::new());
        i += 1;
    }
    let tiles: usize = div_ceil(p.rows, TILE);
    let mut ti: usize = 0;
    while ti < tiles
        invariant
            ti <= tiles == ceil_div(p.rows as int, 8),
            size == round_up(k as int, 8) * 8,
            size < 64 * 16384,
            p.t0 < p.t1,
            p.t1 <= ceil_div(n as int, 8),
            tiles * size <= x@.len() == _all,
            ceil_div(n as int, 8) * size <= w@.len() == _most,
            padded(w@, 8 * ceil_div(n as int, 8), k as int),
            out@.len() == p.rows,
            forall|r: int| #![trigger out@[r]]
                0 <= r < p.rows && r < 8 * ti ==> out@[r]@.len() == columns(p, n as int)
                    && sums_right(out@[r]@, x@, w@, r, p, k as int),
            forall|r: int| #![trigger out@[r]]
                8 * ti <= r < p.rows ==> out@[r]@.len() == 0,
        decreases tiles - ti,
    {
        proof {
            assert(ti * size <= (ti + 1) * size <= tiles * size) by (nonlinear_arith)
                requires
                    0 <= ti < tiles,
                    0 <= size,
            ;
            assert((ti + 1) * size == ti * size + size) by (nonlinear_arith);
        }
        let xt = vstd::slice::slice_subrange(x.as_slice(), ti * size, ti * size + size);
        let mut tj: usize = p.t0;
        while tj < p.t1
            invariant
                ti < tiles == ceil_div(p.rows as int, 8),
                p.t0 <= tj <= p.t1,
                size == round_up(k as int, 8) * 8,
                size < 64 * 16384,
                p.t1 <= ceil_div(n as int, 8),
                tiles * size <= x@.len(),
                (ti + 1) * size <= x@.len(),
                (ti + 1) * size == ti * size + size,
                xt@ == x@.subrange(ti * size, (ti + 1) * size),
                ceil_div(n as int, 8) * size <= w@.len() == _most,
                padded(w@, 8 * ceil_div(n as int, 8), k as int),
                out@.len() == p.rows,
                forall|r: int| #![trigger out@[r]]
                    0 <= r < p.rows && r < 8 * ti ==> out@[r]@.len() == columns(p, n as int)
                        && sums_right(out@[r]@, x@, w@, r, p, k as int),
                forall|r: int| #![trigger out@[r]]
                    8 * ti + 8 <= r < p.rows ==> out@[r]@.len() == 0,
                forall|r: int| #![trigger out@[r]]
                    8 * ti <= r < p.rows && r < 8 * ti + 8 ==> out@[r]@.len() == clipped(
                        p,
                        tj as int,
                        n as int,
                    ) && sums_right(out@[r]@, x@, w@, r, p, k as int),
            decreases p.t1 - tj,
        {
            proof {
                let most = ceil_div(n as int, 8);
                assert(tj * size <= (tj + 1) * size <= most * size) by (nonlinear_arith)
                    requires
                        0 <= tj < most,
                        0 <= size,
                ;
                assert((tj + 1) * size == tj * size + size) by (nonlinear_arith);
            }
            let wt = vstd::slice::slice_subrange(w.as_slice(), tj * size, tj * size + size);
            assert(wt@ == w@.subrange(tj * size, (tj + 1) * size));
            let sums = tile_scalar(xt, wt);
            assert(xt@.len() as int / 64 * 8 == round_up(k as int, 8));
            proof {
                assert forall|a: int, b: int| 0 <= a < 8 && 0 <= b < 8 implies #[trigger] sums@[a]@[b]
                    == row_dot(x@, w@, 8 * ti + a, 8 * tj + b, k as int, k as int) by {
                    tile_is_rows(
                        x@,
                        w@,
                        ti as int,
                        tj as int,
                        a,
                        b,
                        k as int,
                        round_up(k as int, 8),
                    );
                    tail_adds_nothing(
                        x@,
                        w@,
                        8 * ti + a,
                        8 * tj + b,
                        k as int,
                        8 * ceil_div(n as int, 8),
                        round_up(k as int, 8),
                    );
                }
            }
            let cols: usize = if n - 8 * tj < 8 {
                n - 8 * tj
            } else {
                8
            };
            put_sums(&mut out, &sums, ti, cols);
            proof {
                assert forall|r: int| #![trigger out@[r]]
                    8 * ti <= r < p.rows && r < 8 * ti + 8 implies out@[r]@.len() == clipped(
                    p,
                    tj + 1,
                    n as int,
                ) && sums_right(out@[r]@, x@, w@, r, p, k as int) by {
                    assert forall|c: int| 0 <= c < out@[r]@.len() implies #[trigger] out@[r]@[c]
                        == row_dot(x@, w@, r, 8 * p.t0 + c, k as int, k as int) by {
                        let was = clipped(p, tj as int, n as int);
                        if c >= was {
                            assert(sums@[r - 8 * ti]@[c - was] == row_dot(
                                x@,
                                w@,
                                8 * ti + (r - 8 * ti),
                                8 * tj + (c - was),
                                k as int,
                                k as int,
                            ));
                        }
                    }
                }
            }
            tj += 1;
        }
        ti += 1;
    }
    out
}

/// The columns of a task before a tile.
spec fn clipped(p: Part, tj: int, n: int) -> int {
    (if 8 * tj < n {
        8 * tj
    } else {
        n
    }) - 8 * p.t0
}

/// Appends the first columns of the sums of a tile to its rows.
fn put_sums(out: &mut Vec<Vec<i32>>, sums: &[[i32; 8]; 8], ti: usize, cols: usize)
    requires
        cols <= 8,
        8 * ti < old(out)@.len(),
    ensures
        final(out)@.len() == old(out)@.len(),
        forall|r: int| #![trigger final(out)@[r]]
            0 <= r < old(out)@.len() ==> final(out)@[r]@ == if 8 * ti <= r < 8 * ti + 8 {
                old(out)@[r]@ + sums@[r - 8 * ti]@.take(cols as int)
            } else {
                old(out)@[r]@
            },
{
    let ghost before = out@;
    let n: usize = out.len();
    let mut i: usize = 0;
    while i < 8 && i < n - 8 * ti
        invariant
            i <= 8,
            8 * ti < n,
            8 * ti + i <= n,
            cols <= 8,
            n == before.len() == out@.len(),
            forall|r: int| #![trigger out@[r]]
                0 <= r < n ==> out@[r]@ == if 8 * ti <= r < 8 * ti + i {
                    before[r]@ + sums@[r - 8 * ti]@.take(cols as int)
                } else {
                    before[r]@
                },
        decreases 8 - i,
    {
        let at: usize = 8 * ti + i;
        let ghost start = out@;
        let mut j: usize = 0;
        assert(out@[at as int]@ =~= before[at as int]@ + sums@[i as int]@.take(0));
        while j < cols
            invariant
                j <= cols <= 8,
                i < 8,
                at < n == out@.len(),
                start.len() == n,
                forall|r: int| #![trigger out@[r]] 0 <= r < n && r != at ==> out@[r] == start[r],
                out@[at as int]@ == before[at as int]@ + sums@[i as int]@.take(j as int),
            decreases cols - j,
        {
            let v: i32 = sums[i][j];
            out[at].push(v);
            j += 1;
            assert(out@[at as int]@ =~= before[at as int]@ + sums@[i as int]@.take(j as int));
        }
        i += 1;
    }
}

/// How a product of `[m, k]` and `[n, k]` is split: tasks of 64 rows by a run of column tiles.
#[derive(Debug, Clone, Copy, PartialEq, Eq, Structural)]
pub struct Split {
    /// Blocks of rows.
    pub mt: usize,
    /// Column tiles in all.
    pub tiles: usize,
    /// Column tiles per task.
    pub per: usize,
    /// Runs of column tiles.
    pub nt: usize,
}

/// The rows and columns of one task.
#[derive(Debug, Clone, Copy, PartialEq, Eq, Structural)]
pub struct Part {
    /// The first row.
    pub r0: usize,
    /// Rows.
    pub rows: usize,
    /// The first column tile.
    pub t0: usize,
    /// The end of the column tiles.
    pub t1: usize,
}

impl Split {
    /// The split of a product of `m` rows and `n` columns.
    pub open spec fn of(self, m: int, n: int) -> bool {
        &&& m > 0 && n > 0
        &&& self.mt == ceil_div(m, 64)
        &&& self.tiles == ceil_div(n, 8)
        &&& self.per > 0
        &&& self.nt == ceil_div(self.tiles as int, self.per as int)
    }

    /// Task `t` of the split of `m` rows.
    pub open spec fn spec_part(self, m: int, t: int) -> Part {
        let bi = t % self.mt as int;
        let bj = t / self.mt as int;
        Part {
            r0: (bi * 64) as usize,
            rows: (if m - bi * 64 < 64 {
                m - bi * 64
            } else {
                64
            }) as usize,
            t0: (bj * self.per) as usize,
            t1: (if (bj + 1) * self.per < self.tiles {
                (bj + 1) * self.per
            } else {
                self.tiles as int
            }) as usize,
        }
    }

    /// The rows and columns of task `t`.
    pub fn part(self, m: usize, n: usize, t: usize) -> (r: Part)
        requires
            self.of(m as int, n as int),
            t < self.mt * self.nt,
        ensures
            r == self.spec_part(m as int, t as int),
            r.r0 + r.rows <= m,
            0 < r.rows <= 64,
            r.t0 < r.t1 <= self.tiles,
    {
        let bi: usize = t % self.mt;
        let bj: usize = t / self.mt;
        proof {
            lemma_fundamental_div_mod(t as int, self.mt as int);
            assert(bj < self.nt) by {
                lemma_multiply_divide_lt(t as int, self.mt as int, self.nt as int);
            }
            assert(bi * 64 < m);
            lemma_fundamental_div_mod(self.tiles + self.per - 1, self.per as int);
            assert(bj * self.per <= (self.nt - 1) * self.per) by (nonlinear_arith)
                requires
                    bj <= self.nt - 1,
                    self.per > 0,
            ;
            assert((self.nt - 1) * self.per == self.per * self.nt - self.per) by (nonlinear_arith);
            assert((bj + 1) * self.per == bj * self.per + self.per) by (nonlinear_arith);
        }
        let r0: usize = bi * MB;
        let rows: usize = if m - r0 < MB {
            m - r0
        } else {
            MB
        };
        let t0: usize = bj * self.per;
        let t1: usize = if self.per < self.tiles - t0 {
            t0 + self.per
        } else {
            self.tiles
        };
        Part { r0, rows, t0, t1 }
    }
}

/// The split for some threads: whole column tiles, with enough runs for three tasks a thread.
pub fn split(m: usize, n: usize, threads: usize) -> (s: Split)
    requires
        m > 0,
        n > 0,
        3 * threads <= usize::MAX,
    ensures
        s.of(m as int, n as int),
        ({
            let want = 3 * (if threads == 0 {
                1int
            } else {
                threads as int
            });
            s.per == ceil_div(s.tiles as int, ceil_div(want, s.mt as int))
        }),
{
    let mt: usize = div_ceil(m, MB);
    let tiles: usize = div_ceil(n, TILE);
    let want: usize = if threads == 0 {
        3
    } else {
        3 * threads
    };
    proof {
        lemma_div_is_ordered_by_denominator(0, 1, 1);
        ceil_positive(m as int, 64);
        ceil_positive(n as int, 8);
        ceil_positive(want as int, mt as int);
    }
    let runs: usize = div_ceil(want, mt);
    proof {
        ceil_positive(tiles as int, runs as int);
    }
    let per: usize = div_ceil(tiles, runs);
    let nt: usize = div_ceil(tiles, per);
    Split { mt, tiles, per, nt }
}

/// Rounding up keeps a positive number positive.
proof fn ceil_positive(n: int, m: int)
    requires
        n > 0,
        m > 0,
    ensures
        ceil_div(n, m) > 0,
{
    lemma_div_non_zero(n + m - 1, m);
}

/// Row `r` and column `j` belong to task `t`.
pub open spec fn in_part(s: Split, m: int, t: int, r: int, j: int) -> bool {
    let p = s.spec_part(m, t);
    p.r0 <= r < p.r0 + p.rows && p.t0 <= j / 8 < p.t1
}

/// Every output of a product belongs to exactly one task of its split.
pub proof fn every_output_in_one_part(s: Split, m: int, n: int, r: int, j: int)
    requires
        s.of(m, n),
        m <= usize::MAX,
        0 <= r < m,
        0 <= j < n,
    ensures
        exists|t: int| 0 <= t < s.mt * s.nt && #[trigger] in_part(s, m, t, r, j),
        forall|t: int, u: int|
            0 <= t < s.mt * s.nt && 0 <= u < s.mt * s.nt && #[trigger] in_part(s, m, t, r, j)
                && #[trigger] in_part(s, m, u, r, j) ==> t == u,
{
    let mt = s.mt as int;
    let per = s.per as int;
    let bi = r / 64;
    let bj = (j / 8) / per;
    let t = bj * mt + bi;
    assert(0 <= bi < mt);
    assert(0 <= j / 8 < s.tiles);
    lemma_fundamental_div_mod(j / 8, per);
    lemma_fundamental_div_mod(s.tiles + per - 1, per);
    lemma_div_pos_is_pos(j / 8, per);
    assert(bj < s.nt) by {
        if bj >= s.nt {
            assert(per * bj >= per * s.nt) by (nonlinear_arith)
                requires
                    bj >= s.nt,
                    per > 0,
            ;
        }
    }
    lemma_fundamental_div_mod_converse(t, mt, bj, bi);
    assert(t < mt * s.nt) by (nonlinear_arith)
        requires
            t == bj * mt + bi,
            bi < mt,
            bj + 1 <= s.nt,
            mt > 0,
    ;
    assert(t >= 0) by (nonlinear_arith)
        requires
            t == bj * mt + bi,
            bi >= 0,
            bj >= 0,
            mt > 0,
    ;
    assert(per * bj == bj * per) by (nonlinear_arith);
    assert((bj + 1) * per == bj * per + per) by (nonlinear_arith);
    part_bounds(s, m, n, t);
    assert(in_part(s, m, t, r, j));
    assert forall|a: int, b: int|
        0 <= a < s.mt * s.nt && 0 <= b < s.mt * s.nt && #[trigger] in_part(s, m, a, r, j)
            && #[trigger] in_part(s, m, b, r, j) implies a == b by {
        part_bounds(s, m, n, a);
        part_bounds(s, m, n, b);
        part_of(s, m, n, a, r, j);
        part_of(s, m, n, b, r, j);
        lemma_fundamental_div_mod(a, mt);
        lemma_fundamental_div_mod(b, mt);
    }
}

/// The fields of a task are what the formulas say, without overflow.
proof fn part_bounds(s: Split, m: int, n: int, t: int)
    requires
        s.of(m, n),
        m <= usize::MAX,
        0 <= t < s.mt * s.nt,
    ensures
        s.spec_part(m, t).r0 == t % s.mt as int * 64,
        s.spec_part(m, t).rows == if m - t % s.mt as int * 64 < 64 {
            m - t % s.mt as int * 64
        } else {
            64
        },
        s.spec_part(m, t).t0 == t / s.mt as int * s.per,
        s.spec_part(m, t).t1 == if (t / s.mt as int + 1) * s.per < s.tiles {
            (t / s.mt as int + 1) * s.per
        } else {
            s.tiles as int
        },
{
    let bi = t % s.mt as int;
    let bj = t / s.mt as int;
    lemma_fundamental_div_mod(t, s.mt as int);
    lemma_multiply_divide_lt(t, s.mt as int, s.nt as int);
    lemma_mod_bound(t, s.mt as int);
    lemma_div_pos_is_pos(t, s.mt as int);
    assert(0 <= bi * 64 < m);
    lemma_fundamental_div_mod(s.tiles + s.per - 1, s.per as int);
    assert(bj * s.per <= (s.nt - 1) * s.per) by (nonlinear_arith)
        requires
            bj <= s.nt - 1,
            s.per > 0,
    ;
    assert((s.nt - 1) * s.per == s.per * s.nt - s.per) by (nonlinear_arith);
    assert((bj + 1) * s.per == bj * s.per + s.per) by (nonlinear_arith);
    assert(0 <= bj * s.per) by (nonlinear_arith)
        requires
            bj >= 0,
            s.per > 0,
    ;
}

/// The task of an output is the one its row block and its column tile name.
proof fn part_of(s: Split, m: int, n: int, t: int, r: int, j: int)
    requires
        s.of(m, n),
        m <= usize::MAX,
        0 <= t < s.mt * s.nt,
        0 <= j,
        in_part(s, m, t, r, j),
    ensures
        t % s.mt as int == r / 64,
        t / s.mt as int == (j / 8) / s.per as int,
{
    part_bounds(s, m, n, t);
    let bj = t / s.mt as int;
    assert((bj + 1) * s.per == bj * s.per + s.per) by (nonlinear_arith);
    assert(s.per * bj == bj * s.per) by (nonlinear_arith);
    lemma_fundamental_div_mod_converse(j / 8, s.per as int, bj, j / 8 - bj * s.per);
}

} // verus!
