//! Spatial utilities for test positioning and layout.
//!
//! Offsets are computed from each test's cleanup region so parallel runs do not
//! overlap, then arranged in a square grid centered at the origin.
use vstd::prelude::*;
use vstd::arithmetic::div_mod::{lemma_div_is_ordered, lemma_div_multiples_vanish, lemma_small_mod, lemma_fundamental_div_mod};

use crate::test_spec::TestSpec;

verus! {

/// Padding between neighbouring tests when none is given.
pub const DEFAULT_BATCH_PADDING: i32 = 8;

/// Half the side of the footprint assumed for a test without a cleanup region.
pub const FALLBACK_HALF_EXTENT: i32 = 16;

pub open spec fn min_i(a: int, b: int) -> int {
    if a <= b { a } else { b }
}

pub open spec fn max_i(a: int, b: int) -> int {
    if a >= b { a } else { b }
}

pub open spec fn in_i32(x: int) -> bool {
    i32::MIN <= x <= i32::MAX
}

/// Rust's `/ 2` on integers: the quotient rounded toward zero.
pub open spec fn half_toward_zero(x: int) -> int {
    if x >= 0 { x / 2 } else { -((-x) / 2) }
}

/// Horizontal footprint `(x_min, x_max, z_min, z_max)` of a test: its cleanup
/// region, or a fallback square around the origin.
pub open spec fn footprint(t: TestSpec) -> (int, int, int, int) {
    let fallback = (-16int, 15int, -16int, 15int);
    match t.setup {
        Some(s) => match s.cleanup {
            Some(c) => {
                let r = c.region;
                (
                    min_i(r[0][0] as int, r[1][0] as int),
                    max_i(r[0][0] as int, r[1][0] as int),
                    min_i(r[0][2] as int, r[1][2] as int),
                    max_i(r[0][2] as int, r[1][2] as int),
                )
            },
            None => fallback,
        },
        None => fallback,
    }
}

/// Number of grid columns for `n` tests: the least `c >= 1` with `c * c >= n`.
pub open spec fn is_grid_cols(c: int, n: int) -> bool {
    c >= 1 && c * c >= n && (c - 1) * (c - 1) < n
}

pub open spec fn grid_cols(n: int) -> int {
    choose|c: int| is_grid_cols(c, n)
}

/// Number of grid rows: `n` divided by the column count, rounded up.
pub open spec fn grid_rows(n: int, cols: int) -> int {
    (n - 1) / cols + 1
}

/// Least `x_min` among the first `k` tests of column `c`.
pub open spec fn left_upto(ts: Seq<TestSpec>, cols: int, c: int, k: int) -> int
    decreases k,
{
    if k <= 0 {
        i32::MAX as int
    } else {
        let p = left_upto(ts, cols, c, k - 1);
        if (k - 1) % cols == c { min_i(p, footprint(ts[k - 1]).0) } else { p }
    }
}

/// Greatest `x_max` among the first `k` tests of column `c`.
pub open spec fn right_upto(ts: Seq<TestSpec>, cols: int, c: int, k: int) -> int
    decreases k,
{
    if k <= 0 {
        i32::MIN as int
    } else {
        let p = right_upto(ts, cols, c, k - 1);
        if (k - 1) % cols == c { max_i(p, footprint(ts[k - 1]).1) } else { p }
    }
}

/// Least `z_min` among the first `k` tests of row `r`.
pub open spec fn back_upto(ts: Seq<TestSpec>, cols: int, r: int, k: int) -> int
    decreases k,
{
    if k <= 0 {
        i32::MAX as int
    } else {
        let p = back_upto(ts, cols, r, k - 1);
        if (k - 1) / cols == r { min_i(p, footprint(ts[k - 1]).2) } else { p }
    }
}

/// Greatest `z_max` among the first `k` tests of row `r`.
pub open spec fn front_upto(ts: Seq<TestSpec>, cols: int, r: int, k: int) -> int
    decreases k,
{
    if k <= 0 {
        i32::MIN as int
    } else {
        let p = front_upto(ts, cols, r, k - 1);
        if (k - 1) / cols == r { max_i(p, footprint(ts[k - 1]).3) } else { p }
    }
}

pub open spec fn left(ts: Seq<TestSpec>, c: int) -> int {
    left_upto(ts, grid_cols(ts.len() as int), c, ts.len() as int)
}

pub open spec fn right(ts: Seq<TestSpec>, c: int) -> int {
    right_upto(ts, grid_cols(ts.len() as int), c, ts.len() as int)
}

pub open spec fn back(ts: Seq<TestSpec>, r: int) -> int {
    back_upto(ts, grid_cols(ts.len() as int), r, ts.len() as int)
}

pub open spec fn front(ts: Seq<TestSpec>, r: int) -> int {
    front_upto(ts, grid_cols(ts.len() as int), r, ts.len() as int)
}

/// Offset of column `c` along x before centering: each column starts `padding`
/// after the previous column ends.
pub open spec fn x_off(ts: Seq<TestSpec>, padding: int, c: int) -> int
    decreases c,
{
    if c <= 0 {
        0
    } else {
        x_off(ts, padding, c - 1) + right(ts, c - 1) - left(ts, c) + padding
    }
}

/// Offset of row `r` along z before centering.
pub open spec fn z_off(ts: Seq<TestSpec>, padding: int, r: int) -> int
    decreases r,
{
    if r <= 0 {
        0
    } else {
        z_off(ts, padding, r - 1) + front(ts, r - 1) - back(ts, r) + padding
    }
}

pub open spec fn x_center(ts: Seq<TestSpec>, padding: int) -> int {
    let cols = grid_cols(ts.len() as int);
    half_toward_zero(left(ts, 0) + x_off(ts, padding, cols - 1) + right(ts, cols - 1))
}

pub open spec fn z_center(ts: Seq<TestSpec>, padding: int) -> int {
    let n = ts.len() as int;
    let rows = grid_rows(n, grid_cols(n));
    half_toward_zero(back(ts, 0) + z_off(ts, padding, rows - 1) + front(ts, rows - 1))
}

/// The offset given to test `i` of a batch.
pub open spec fn batch_offset(ts: Seq<TestSpec>, padding: int, i: int) -> (int, int, int) {
    let cols = grid_cols(ts.len() as int);
    (
        x_off(ts, padding, i % cols) - x_center(ts, padding),
        0,
        z_off(ts, padding, i / cols) - z_center(ts, padding),
    )
}

/// Every value the layout computes fits in an `i32`.
pub open spec fn batch_fits(ts: Seq<TestSpec>, padding: int) -> bool {
    let n = ts.len() as int;
    let cols = grid_cols(n);
    let rows = grid_rows(n, cols);
    n > 0 ==> {
        &&& forall|c: int|
            1 <= c < cols ==> {
                &&& in_i32(#[trigger] x_off(ts, padding, c - 1) + right(ts, c - 1))
                &&& in_i32(x_off(ts, padding, c - 1) + right(ts, c - 1) - left(ts, c))
                &&& in_i32(x_off(ts, padding, c))
            }
        &&& forall|r: int|
            1 <= r < rows ==> {
                &&& in_i32(#[trigger] z_off(ts, padding, r - 1) + front(ts, r - 1))
                &&& in_i32(z_off(ts, padding, r - 1) + front(ts, r - 1) - back(ts, r))
                &&& in_i32(z_off(ts, padding, r))
            }
        &&& in_i32(left(ts, 0) + x_off(ts, padding, cols - 1))
        &&& in_i32(left(ts, 0) + x_off(ts, padding, cols - 1) + right(ts, cols - 1))
        &&& in_i32(back(ts, 0) + z_off(ts, padding, rows - 1))
        &&& in_i32(back(ts, 0) + z_off(ts, padding, rows - 1) + front(ts, rows - 1))
        &&& forall|c: int| 0 <= c < cols ==> in_i32(#[trigger] x_off(ts, padding, c) - x_center(ts, padding))
        &&& forall|r: int| 0 <= r < rows ==> in_i32(#[trigger] z_off(ts, padding, r) - z_center(ts, padding))
    }
}

proof fn lemma_grid_cols_unique(c: int, n: int)
    requires
        is_grid_cols(c, n),
    ensures
        grid_cols(n) == c,
{
    let d = grid_cols(n);
    assert(is_grid_cols(d, n));
    if d < c {
        assert((d as int) * (d as int) <= (c - 1) * (c - 1)) by (nonlinear_arith)
            requires d <= c - 1, d >= 1;
    } else if d > c {
        assert((c as int) * (c as int) <= (d - 1) * (d - 1)) by (nonlinear_arith)
            requires c <= d - 1, c >= 1;
    }
}

/// The column count of the grid: the least `c >= 1` with `c * c >= n`.
fn grid_columns(n: usize) -> (c: usize)
    requires
        n > 0,
    ensures
        c == grid_cols(n as int),
        1 <= c <= n,
{
    let mut c: usize = 1;
    loop
        invariant
            1 <= c <= n,
            (c - 1) * (c - 1) < n,
        ensures
            1 <= c <= n,
            (c - 1) * (c - 1) < n,
            c * c >= n,
        decreases n - c,
    {
        let cw: u128 = c as u128;
        assert(cw * cw <= 0xffff_ffff_ffff_ffffu128 * 0xffff_ffff_ffff_ffffu128) by (nonlinear_arith)
            requires cw <= 0xffff_ffff_ffff_ffffu128;
        if cw * cw >= n as u128 {
            break;
        }
        assert(c < n) by (nonlinear_arith)
            requires c >= 1, c * c < n;
        c = c + 1;
    }
    proof {
        lemma_grid_cols_unique(c as int, n as int);
    }
    c
}

/// The footprint of one test, computed.
fn footprint_of(t: &TestSpec) -> (r: (i32, i32, i32, i32))
    ensures
        (r.0 as int, r.1 as int, r.2 as int, r.3 as int) == footprint(*t),
{
    if let Some(setup) = &t.setup {
        if let Some(cleanup) = &setup.cleanup {
            let r = cleanup.region;
            let x_min = if r[0][0] <= r[1][0] { r[0][0] } else { r[1][0] };
            let x_max = if r[0][0] >= r[1][0] { r[0][0] } else { r[1][0] };
            let z_min = if r[0][2] <= r[1][2] { r[0][2] } else { r[1][2] };
            let z_max = if r[0][2] >= r[1][2] { r[0][2] } else { r[1][2] };
            return (x_min, x_max, z_min, z_max);
        }
    }
    (-FALLBACK_HALF_EXTENT, FALLBACK_HALF_EXTENT - 1, -FALLBACK_HALF_EXTENT, FALLBACK_HALF_EXTENT - 1)
}


/// Whether an offset triple holds the given values.
pub open spec fn offset_is(o: [i32; 3], v: (int, int, int)) -> bool {
    o[0] as int == v.0 && o[1] as int == v.1 && o[2] as int == v.2
}

/// Calculate test offsets from cleanup regions with explicit padding between tests.
///
/// Tests are laid out in a grid of `ceil(sqrt(n))` columns, filled row by row.
/// Each column is as wide as the widest cleanup region in it, each row as deep
/// as the deepest; neighbouring columns and rows are `padding` apart, and the
/// whole grid is centered on the origin.
pub fn calculate_test_offsets_for_batch(tests: &[TestSpec], padding: i32) -> (r: Vec<[i32; 3]>)
    requires
        batch_fits(tests@, padding as int),
    ensures
        r.len() == tests.len(),
        forall|i: int| 0 <= i < tests.len() ==> offset_is(#[trigger] r[i], batch_offset(tests@, padding as int, i)),
{
    let n = tests.len();
    if n == 0 {
        return Vec::new();
    }
    let ghost ts = tests@;
    let ghost pad = padding as int;
    let cols = grid_columns(n);
    let rows = (n - 1) / cols + 1;
    proof {
        vstd::arithmetic::div_mod::lemma_div_pos_is_pos((n - 1) as int, cols as int);
    }
    let mut left_ext: Vec<i32> = vec![i32::MAX; cols];
    let mut right_ext: Vec<i32> = vec![i32::MIN; cols];
    let mut back_ext: Vec<i32> = vec![i32::MAX; rows];
    let mut front_ext: Vec<i32> = vec![i32::MIN; rows];
    let mut i: usize = 0;
    while i < n
        invariant
            ts == tests@,
            n == ts.len(),
            cols == grid_cols(n as int),
            1 <= cols <= n,
            rows == grid_rows(n as int, cols as int),
            left_ext.len() == cols,
            right_ext.len() == cols,
            back_ext.len() == rows,
            front_ext.len() == rows,
            i <= n,
            forall|c: int| 0 <= c < cols ==> left_ext[c] as int == left_upto(ts, cols as int, c, i as int),
            forall|c: int| 0 <= c < cols ==> right_ext[c] as int == right_upto(ts, cols as int, c, i as int),
            forall|q: int| 0 <= q < rows ==> back_ext[q] as int == back_upto(ts, cols as int, q, i as int),
            forall|q: int| 0 <= q < rows ==> front_ext[q] as int == front_upto(ts, cols as int, q, i as int),
        decreases n - i,
    {
        let col = i % cols;
        let row = i / cols;
        proof {
            lemma_div_is_ordered(i as int, (n - 1) as int, cols as int);
        }
        let (x_min, x_max, z_min, z_max) = footprint_of(&tests[i]);
        let l = left_ext[col];
        left_ext.set(col, if x_min < l { x_min } else { l });
        let rr = right_ext[col];
        right_ext.set(col, if x_max > rr { x_max } else { rr });
        let b = back_ext[row];
        back_ext.set(row, if z_min < b { z_min } else { b });
        let f = front_ext[row];
        front_ext.set(row, if z_max > f { z_max } else { f });
        i = i + 1;
    }

    let mut x_offsets: Vec<i32> = vec![0; cols];
    let mut c: usize = 1;
    while c < cols
        invariant
            ts == tests@,
            n == ts.len(),
            n > 0,
            cols == grid_cols(n as int),
            1 <= c <= cols,
            x_offsets.len() == cols,
            left_ext.len() == cols,
            right_ext.len() == cols,
            batch_fits(ts, pad),
            pad == padding as int,
            forall|k: int| 0 <= k < cols ==> left_ext[k] as int == left(ts, k),
            forall|k: int| 0 <= k < cols ==> right_ext[k] as int == right(ts, k),
            forall|k: int| 0 <= k < c ==> x_offsets[k] as int == x_off(ts, pad, k),
        decreases cols - c,
    {
        assert(in_i32(x_off(ts, pad, c - 1) + right(ts, c - 1)));
        let v = x_offsets[c - 1] + right_ext[c - 1] - left_ext[c] + padding;
        x_offsets.set(c, v);
        c = c + 1;
    }

    let mut z_offsets: Vec<i32> = vec![0; rows];
    let mut q: usize = 1;
    while q < rows
        invariant
            ts == tests@,
            n == ts.len(),
            n > 0,
            cols == grid_cols(n as int),
            rows == grid_rows(n as int, cols as int),
            1 <= q <= rows,
            z_offsets.len() == rows,
            back_ext.len() == rows,
            front_ext.len() == rows,
            batch_fits(ts, pad),
            pad == padding as int,
            forall|k: int| 0 <= k < rows ==> back_ext[k] as int == back(ts, k),
            forall|k: int| 0 <= k < rows ==> front_ext[k] as int == front(ts, k),
            forall|k: int| 0 <= k < q ==> z_offsets[k] as int == z_off(ts, pad, k),
        decreases rows - q,
    {
        assert(in_i32(z_off(ts, pad, q - 1) + front(ts, q - 1)));
        let v = z_offsets[q - 1] + front_ext[q - 1] - back_ext[q] + padding;
        z_offsets.set(q, v);
        q = q + 1;
    }

    let xc = (left_ext[0] + x_offsets[cols - 1] + right_ext[cols - 1]) / 2;
    let zc = (back_ext[0] + z_offsets[rows - 1] + front_ext[rows - 1]) / 2;
    assert(xc as int == x_center(ts, pad));
    assert(zc as int == z_center(ts, pad));

    let mut offsets: Vec<[i32; 3]> = Vec::with_capacity(n);
    let mut i: usize = 0;
    while i < n
        invariant
            ts == tests@,
            n == ts.len(),
            n > 0,
            cols == grid_cols(n as int),
            rows == grid_rows(n as int, cols as int),
            1 <= cols <= n,
            i <= n,
            x_offsets.len() == cols,
            z_offsets.len() == rows,
            batch_fits(ts, pad),
            pad == padding as int,
            xc as int == x_center(ts, pad),
            zc as int == z_center(ts, pad),
            forall|k: int| 0 <= k < cols ==> x_offsets[k] as int == x_off(ts, pad, k),
            forall|k: int| 0 <= k < rows ==> z_offsets[k] as int == z_off(ts, pad, k),
            offsets.len() == i,
            forall|k: int| 0 <= k < i ==> offset_is(#[trigger] offsets[k], batch_offset(ts, pad, k)),
        decreases n - i,
    {
        let col = i % cols;
        let row = i / cols;
        proof {
            lemma_div_is_ordered(i as int, (n - 1) as int, cols as int);
        }
        assert(in_i32(x_off(ts, pad, col as int) - x_center(ts, pad)));
        assert(in_i32(z_off(ts, pad, row as int) - z_center(ts, pad)));
        let ox = x_offsets[col] - xc;
        let oz = z_offsets[row] - zc;
        offsets.push([ox, 0, oz]);
        i = i + 1;
    }
    offsets
}


/// Calculate test offsets using the default batch padding.
pub fn calculate_test_offsets_for_batch_default(tests: &[TestSpec]) -> (r: Vec<[i32; 3]>)
    requires
        batch_fits(tests@, DEFAULT_BATCH_PADDING as int),
    ensures
        r.len() == tests.len(),
        forall|i: int| 0 <= i < tests.len() ==> offset_is(#[trigger] r[i], batch_offset(tests@, DEFAULT_BATCH_PADDING as int, i)),
{
    calculate_test_offsets_for_batch(tests, DEFAULT_BATCH_PADDING)
}

/// Pair loaded tests with their layout offsets, keeping their order.
pub fn pair_tests_with_offsets(tests: Vec<TestSpec>) -> (r: Vec<(TestSpec, [i32; 3])>)
    requires
        batch_fits(tests@, DEFAULT_BATCH_PADDING as int),
    ensures
        r.len() == tests.len(),
        forall|i: int| 0 <= i < tests.len() ==> (#[trigger] r[i]).0 == tests[i],
        forall|i: int| 0 <= i < tests.len() ==> offset_is((#[trigger] r[i]).1, batch_offset(tests@, DEFAULT_BATCH_PADDING as int, i)),
{
    let offsets = calculate_test_offsets_for_batch_default(tests.as_slice());
    let ghost ts = tests@;
    let mut r: Vec<(TestSpec, [i32; 3])> = Vec::new();
    let mut i: usize = 0;
    for t in it: tests.into_iter()
        invariant
            it.seq() == ts,
            offsets.len() == ts.len(),
            forall|k: int| 0 <= k < ts.len() ==> offset_is(#[trigger] offsets[k], batch_offset(ts, DEFAULT_BATCH_PADDING as int, k)),
            i == it.index(),
            r.len() == i,
            forall|k: int| 0 <= k < i ==> (#[trigger] r[k]).0 == ts[k],
            forall|k: int| 0 <= k < i ==> (#[trigger] r[k]).1 == offsets[k],
    {
        r.push((t, offsets[i]));
        i = i + 1;
    }
    r
}

/// Apply an offset to a position.
pub fn apply_offset(pos: [i32; 3], offset: [i32; 3]) -> (r: [i32; 3])
    requires
        in_i32(pos[0] + offset[0]),
        in_i32(pos[1] + offset[1]),
        in_i32(pos[2] + offset[2]),
    ensures
        r[0] == pos[0] + offset[0],
        r[1] == pos[1] + offset[1],
        r[2] == pos[2] + offset[2],
{
    [pos[0] + offset[0], pos[1] + offset[1], pos[2] + offset[2]]
}

/// Apply an offset to a region (pair of positions).
pub fn apply_offset_to_region(region: [[i32; 3]; 2], offset: [i32; 3]) -> (r: [[i32; 3]; 2])
    requires
        in_i32(region[0][0] + offset[0]),
        in_i32(region[0][1] + offset[1]),
        in_i32(region[0][2] + offset[2]),
        in_i32(region[1][0] + offset[0]),
        in_i32(region[1][1] + offset[1]),
        in_i32(region[1][2] + offset[2]),
    ensures
        forall|k: int, a: int| 0 <= k < 2 && 0 <= a < 3 ==> #[trigger] r[k][a] == region[k][a] + offset[a],
{
    let a = apply_offset(region[0], offset);
    let b = apply_offset(region[1], offset);
    let r = [a, b];
    assert forall|k: int, x: int| 0 <= k < 2 && 0 <= x < 3 implies #[trigger] r[k][x] == region[k][x] + offset[x] by {
        if k == 0 {
            assert(r[k] == a);
        } else {
            assert(r[k] == b);
        }
    }
    r
}


/// The horizontal footprint of test `i` once its batch offset is applied.
pub open spec fn placed_footprint(ts: Seq<TestSpec>, padding: int, i: int) -> (int, int, int, int) {
    let f = footprint(ts[i]);
    let o = batch_offset(ts, padding, i);
    (f.0 + o.0, f.1 + o.0, f.2 + o.2, f.3 + o.2)
}

/// Two footprints share no block column: they are apart along x or along z.
pub open spec fn footprints_disjoint(a: (int, int, int, int), b: (int, int, int, int)) -> bool {
    a.1 < b.0 || b.1 < a.0 || a.3 < b.2 || b.3 < a.2
}

proof fn lemma_grid_cols_search(n: int, c: int)
    requires
        n >= 1,
        c >= 1,
        (c - 1) * (c - 1) < n,
    ensures
        is_grid_cols(grid_cols(n), n),
    decreases n - c,
{
    if c * c >= n {
        assert(is_grid_cols(c, n));
    } else {
        assert(c < n) by (nonlinear_arith)
            requires c >= 1, c * c < n;
        lemma_grid_cols_search(n, c + 1);
    }
}

proof fn lemma_grid_shape(n: int)
    requires
        n >= 1,
    ensures
        is_grid_cols(grid_cols(n), n),
        1 <= grid_cols(n) <= n,
        grid_rows(n, grid_cols(n)) >= 1,
{
    lemma_grid_cols_search(n, 1);
    let c = grid_cols(n);
    if c > 1 {
        assert(c - 1 <= (c - 1) * (c - 1)) by (nonlinear_arith)
            requires c - 1 >= 1;
    }
    vstd::arithmetic::div_mod::lemma_div_pos_is_pos(n - 1, c);
}

proof fn lemma_column_bounds(ts: Seq<TestSpec>, cols: int, c: int, m: int, k: int)
    requires
        0 <= k < m <= ts.len(),
        cols > 0,
        k % cols == c,
    ensures
        left_upto(ts, cols, c, m) <= footprint(ts[k]).0,
        right_upto(ts, cols, c, m) >= footprint(ts[k]).1,
    decreases m,
{
    if m - 1 != k {
        lemma_column_bounds(ts, cols, c, m - 1, k);
    }
}

proof fn lemma_row_bounds(ts: Seq<TestSpec>, cols: int, r: int, m: int, k: int)
    requires
        0 <= k < m <= ts.len(),
        cols > 0,
        k / cols == r,
    ensures
        back_upto(ts, cols, r, m) <= footprint(ts[k]).2,
        front_upto(ts, cols, r, m) >= footprint(ts[k]).3,
    decreases m,
{
    if m - 1 != k {
        lemma_row_bounds(ts, cols, r, m - 1, k);
    }
}

proof fn lemma_columns_gap(ts: Seq<TestSpec>, padding: int, c1: int, c2: int)
    requires
        ts.len() >= 1,
        padding >= 0,
        0 <= c1 < c2 < grid_cols(ts.len() as int),
    ensures
        x_off(ts, padding, c1) + right(ts, c1) + padding <= x_off(ts, padding, c2) + left(ts, c2),
    decreases c2 - c1,
{
    let n = ts.len() as int;
    lemma_grid_shape(n);
    let cols = grid_cols(n);
    if c2 - 1 > c1 {
        lemma_columns_gap(ts, padding, c1, c2 - 1);
        let c = c2 - 1;
        lemma_small_mod(c as nat, cols as nat);
        lemma_column_bounds(ts, cols, c, n, c);
    }
}

/// Row `r` of the grid holds test `cols * r`.
proof fn lemma_row_member(n: int, r: int)
    requires
        n >= 1,
        0 <= r < grid_rows(n, grid_cols(n)),
    ensures
        0 <= grid_cols(n) * r < n,
        (grid_cols(n) * r) / grid_cols(n) == r,
{
    lemma_grid_shape(n);
    let cols = grid_cols(n);
    lemma_div_multiples_vanish(r, cols);
    assert(r <= (n - 1) / cols);
    lemma_fundamental_div_mod(n - 1, cols);
    assert(cols * r <= cols * ((n - 1) / cols)) by (nonlinear_arith)
        requires cols > 0, r <= (n - 1) / cols;
    vstd::arithmetic::div_mod::lemma_mod_pos_bound(n - 1, cols);
    assert(0 <= cols * r) by (nonlinear_arith)
        requires cols > 0, r >= 0;
}

proof fn lemma_rows_gap(ts: Seq<TestSpec>, padding: int, r1: int, r2: int)
    requires
        ts.len() >= 1,
        padding >= 0,
        0 <= r1 < r2 < grid_rows(ts.len() as int, grid_cols(ts.len() as int)),
    ensures
        z_off(ts, padding, r1) + front(ts, r1) + padding <= z_off(ts, padding, r2) + back(ts, r2),
    decreases r2 - r1,
{
    let n = ts.len() as int;
    lemma_grid_shape(n);
    let cols = grid_cols(n);
    if r2 - 1 > r1 {
        lemma_rows_gap(ts, padding, r1, r2 - 1);
        let r = r2 - 1;
        lemma_row_member(n, r);
        lemma_row_bounds(ts, cols, r, n, cols * r);
    }
}

/// With positive padding, no two tests of a batch overlap once their offsets
/// are applied: their footprints are apart along x or along z.
pub proof fn law_batch_footprints_disjoint(ts: Seq<TestSpec>, padding: int, i: int, j: int)
    requires
        padding > 0,
        0 <= i < ts.len(),
        0 <= j < ts.len(),
        i != j,
    ensures
        footprints_disjoint(placed_footprint(ts, padding, i), placed_footprint(ts, padding, j)),
{
    let n = ts.len() as int;
    lemma_grid_shape(n);
    let cols = grid_cols(n);
    let rows = grid_rows(n, cols);
    vstd::arithmetic::div_mod::lemma_mod_pos_bound(i, cols);
    vstd::arithmetic::div_mod::lemma_mod_pos_bound(j, cols);
    lemma_div_is_ordered(i, n - 1, cols);
    lemma_div_is_ordered(j, n - 1, cols);
    vstd::arithmetic::div_mod::lemma_div_pos_is_pos(i, cols);
    vstd::arithmetic::div_mod::lemma_div_pos_is_pos(j, cols);
    let ci = i % cols;
    let cj = j % cols;
    let ri = i / cols;
    let rj = j / cols;
    lemma_column_bounds(ts, cols, ci, n, i);
    lemma_column_bounds(ts, cols, cj, n, j);
    lemma_row_bounds(ts, cols, ri, n, i);
    lemma_row_bounds(ts, cols, rj, n, j);
    if ci < cj {
        lemma_columns_gap(ts, padding, ci, cj);
    } else if cj < ci {
        lemma_columns_gap(ts, padding, cj, ci);
    } else {
        lemma_fundamental_div_mod(i, cols);
        lemma_fundamental_div_mod(j, cols);
        if ri < rj {
            lemma_rows_gap(ts, padding, ri, rj);
        } else if rj < ri {
            lemma_rows_gap(ts, padding, rj, ri);
        } else {
            assert(i == j);
        }
    }
}

proof fn lemma_footprint_bounds(t: TestSpec)
    ensures
        in_i32(footprint(t).0) && in_i32(footprint(t).1) && in_i32(footprint(t).2) && in_i32(footprint(t).3),
        footprint(t).0 <= footprint(t).1,
        footprint(t).2 <= footprint(t).3,
{
}

/// A test of column `c` among the first `m` whose `x_min` is the column's
/// least (or -1 when the column has none among them).
proof fn left_witness(ts: Seq<TestSpec>, cols: int, c: int, m: int) -> (k: int)
    requires
        cols > 0,
        0 <= m <= ts.len(),
    ensures
        k == -1 ==> left_upto(ts, cols, c, m) == i32::MAX && forall|q: int| 0 <= q < m ==> #[trigger] (q % cols) != c,
        k != -1 ==> 0 <= k < m && k % cols == c && left_upto(ts, cols, c, m) == footprint(ts[k]).0,
    decreases m,
{
    if m == 0 {
        -1
    } else {
        let p = left_witness(ts, cols, c, m - 1);
        lemma_footprint_bounds(ts[m - 1]);
        if (m - 1) % cols == c {
            if p == -1 || footprint(ts[m - 1]).0 <= footprint(ts[p]).0 {
                m - 1
            } else {
                p
            }
        } else {
            p
        }
    }
}

proof fn right_witness(ts: Seq<TestSpec>, cols: int, c: int, m: int) -> (k: int)
    requires
        cols > 0,
        0 <= m <= ts.len(),
    ensures
        k == -1 ==> right_upto(ts, cols, c, m) == i32::MIN && forall|q: int| 0 <= q < m ==> #[trigger] (q % cols) != c,
        k != -1 ==> 0 <= k < m && k % cols == c && right_upto(ts, cols, c, m) == footprint(ts[k]).1,
    decreases m,
{
    if m == 0 {
        -1
    } else {
        let p = right_witness(ts, cols, c, m - 1);
        lemma_footprint_bounds(ts[m - 1]);
        if (m - 1) % cols == c {
            if p == -1 || footprint(ts[m - 1]).1 >= footprint(ts[p]).1 {
                m - 1
            } else {
                p
            }
        } else {
            p
        }
    }
}

proof fn back_witness(ts: Seq<TestSpec>, cols: int, r: int, m: int) -> (k: int)
    requires
        cols > 0,
        0 <= m <= ts.len(),
    ensures
        k == -1 ==> back_upto(ts, cols, r, m) == i32::MAX && forall|q: int| 0 <= q < m ==> #[trigger] (q / cols) != r,
        k != -1 ==> 0 <= k < m && k / cols == r && back_upto(ts, cols, r, m) == footprint(ts[k]).2,
    decreases m,
{
    if m == 0 {
        -1
    } else {
        let p = back_witness(ts, cols, r, m - 1);
        lemma_footprint_bounds(ts[m - 1]);
        if (m - 1) / cols == r {
            if p == -1 || footprint(ts[m - 1]).2 <= footprint(ts[p]).2 {
                m - 1
            } else {
                p
            }
        } else {
            p
        }
    }
}

proof fn front_witness(ts: Seq<TestSpec>, cols: int, r: int, m: int) -> (k: int)
    requires
        cols > 0,
        0 <= m <= ts.len(),
    ensures
        k == -1 ==> front_upto(ts, cols, r, m) == i32::MIN && forall|q: int| 0 <= q < m ==> #[trigger] (q / cols) != r,
        k != -1 ==> 0 <= k < m && k / cols == r && front_upto(ts, cols, r, m) == footprint(ts[k]).3,
    decreases m,
{
    if m == 0 {
        -1
    } else {
        let p = front_witness(ts, cols, r, m - 1);
        lemma_footprint_bounds(ts[m - 1]);
        if (m - 1) / cols == r {
            if p == -1 || footprint(ts[m - 1]).3 >= footprint(ts[p]).3 {
                m - 1
            } else {
                p
            }
        } else {
            p
        }
    }
}

/// The x-range `(least, greatest)` the placed footprints of a batch span.
pub open spec fn span_x(ts: Seq<TestSpec>, padding: int) -> (int, int) {
    let cols = grid_cols(ts.len() as int);
    (left(ts, 0) - x_center(ts, padding), x_off(ts, padding, cols - 1) + right(ts, cols - 1) - x_center(ts, padding))
}

/// The z-range `(least, greatest)` the placed footprints of a batch span.
pub open spec fn span_z(ts: Seq<TestSpec>, padding: int) -> (int, int) {
    let n = ts.len() as int;
    let rows = grid_rows(n, grid_cols(n));
    (back(ts, 0) - z_center(ts, padding), z_off(ts, padding, rows - 1) + front(ts, rows - 1) - z_center(ts, padding))
}

proof fn lemma_half_toward_zero(x: int)
    ensures
        -1 <= x - 2 * half_toward_zero(x) <= 1,
{
}

/// A batch is laid out as a grid centered on the origin: every offset keeps
/// `y`; tests in one column share their `x` offset and tests in one row their
/// `z` offset; every placed footprint lies within the batch's span, which
/// some footprint reaches at each end; and the span is centered (its ends sum
/// to -1, 0 or 1) along `x` and along `z`.
pub proof fn law_batch_grid_centered(ts: Seq<TestSpec>, padding: int, i: int, j: int)
    requires
        padding >= 0,
        0 <= i < ts.len(),
        0 <= j < ts.len(),
    ensures
        batch_offset(ts, padding, i).1 == 0,
        i % grid_cols(ts.len() as int) == j % grid_cols(ts.len() as int) ==> batch_offset(ts, padding, i).0
            == batch_offset(ts, padding, j).0,
        i / grid_cols(ts.len() as int) == j / grid_cols(ts.len() as int) ==> batch_offset(ts, padding, i).2
            == batch_offset(ts, padding, j).2,
        span_x(ts, padding).0 <= placed_footprint(ts, padding, i).0,
        placed_footprint(ts, padding, i).1 <= span_x(ts, padding).1,
        span_z(ts, padding).0 <= placed_footprint(ts, padding, i).2,
        placed_footprint(ts, padding, i).3 <= span_z(ts, padding).1,
        exists|k: int| 0 <= k < ts.len() && #[trigger] placed_footprint(ts, padding, k).0 == span_x(ts, padding).0,
        exists|k: int| 0 <= k < ts.len() && #[trigger] placed_footprint(ts, padding, k).1 == span_x(ts, padding).1,
        exists|k: int| 0 <= k < ts.len() && #[trigger] placed_footprint(ts, padding, k).2 == span_z(ts, padding).0,
        exists|k: int| 0 <= k < ts.len() && #[trigger] placed_footprint(ts, padding, k).3 == span_z(ts, padding).1,
        -1 <= span_x(ts, padding).0 + span_x(ts, padding).1 <= 1,
        -1 <= span_z(ts, padding).0 + span_z(ts, padding).1 <= 1,
{
    let n = ts.len() as int;
    lemma_grid_shape(n);
    let cols = grid_cols(n);
    let rows = grid_rows(n, cols);
    let xc = x_center(ts, padding);
    let zc = z_center(ts, padding);
    vstd::arithmetic::div_mod::lemma_mod_pos_bound(i, cols);
    lemma_div_is_ordered(i, n - 1, cols);
    vstd::arithmetic::div_mod::lemma_div_pos_is_pos(i, cols);
    let ci = i % cols;
    let ri = i / cols;
    lemma_footprint_bounds(ts[i]);
    lemma_column_bounds(ts, cols, ci, n, i);
    lemma_row_bounds(ts, cols, ri, n, i);
    // Column 0 and the last column, row 0 and the last row, are not empty.
    lemma_small_mod(0, cols as nat);
    lemma_small_mod((cols - 1) as nat, cols as nat);
    lemma_footprint_bounds(ts[0]);
    lemma_footprint_bounds(ts[cols - 1]);
    lemma_column_bounds(ts, cols, 0, n, 0);
    lemma_column_bounds(ts, cols, cols - 1, n, cols - 1);
    lemma_row_member(n, 0);
    lemma_row_member(n, rows - 1);
    lemma_footprint_bounds(ts[cols * (rows - 1)]);
    lemma_row_bounds(ts, cols, 0, n, 0);
    lemma_row_bounds(ts, cols, rows - 1, n, cols * (rows - 1));
    // Lower ends.
    if ci > 0 {
        lemma_columns_gap(ts, padding, 0, ci);
    }
    if ri > 0 {
        lemma_rows_gap(ts, padding, 0, ri);
    }
    // Upper ends.
    if ci < cols - 1 {
        lemma_columns_gap(ts, padding, ci, cols - 1);
    }
    if ri < rows - 1 {
        lemma_rows_gap(ts, padding, ri, rows - 1);
    }
    // The ends are reached.
    let kl = left_witness(ts, cols, 0, n);
    let kr = right_witness(ts, cols, cols - 1, n);
    let kb = back_witness(ts, cols, 0, n);
    let kf = front_witness(ts, cols, rows - 1, n);
    assert(0int % cols == 0);
    assert(kl != -1);
    assert(kr != -1);
    assert((cols * (rows - 1)) / cols == rows - 1);
    assert(kb != -1) by {
        assert(0int / cols == 0);
    }
    assert(kf != -1);
    assert(placed_footprint(ts, padding, kl).0 == span_x(ts, padding).0);
    assert(placed_footprint(ts, padding, kr).1 == span_x(ts, padding).1);
    assert(placed_footprint(ts, padding, kb).2 == span_z(ts, padding).0);
    assert(placed_footprint(ts, padding, kf).3 == span_z(ts, padding).1);
    lemma_half_toward_zero(left(ts, 0) + x_off(ts, padding, cols - 1) + right(ts, cols - 1));
    lemma_half_toward_zero(back(ts, 0) + z_off(ts, padding, rows - 1) + front(ts, rows - 1));
}

/// Tests of a batch in different columns are at least `padding` apart along
/// `x`, and tests in different rows at least `padding` apart along `z`: the
/// later column (row) starts `padding` or more after the earlier one ends.
pub proof fn law_batch_neighbour_gap(ts: Seq<TestSpec>, padding: int, i: int, j: int)
    requires
        padding >= 0,
        0 <= i < ts.len(),
        0 <= j < ts.len(),
    ensures
        i % grid_cols(ts.len() as int) < j % grid_cols(ts.len() as int) ==> placed_footprint(ts, padding, j).0
            - placed_footprint(ts, padding, i).1 >= padding,
        i / grid_cols(ts.len() as int) < j / grid_cols(ts.len() as int) ==> placed_footprint(ts, padding, j).2
            - placed_footprint(ts, padding, i).3 >= padding,
{
    let n = ts.len() as int;
    lemma_grid_shape(n);
    let cols = grid_cols(n);
    vstd::arithmetic::div_mod::lemma_mod_pos_bound(i, cols);
    vstd::arithmetic::div_mod::lemma_mod_pos_bound(j, cols);
    lemma_div_is_ordered(i, n - 1, cols);
    lemma_div_is_ordered(j, n - 1, cols);
    vstd::arithmetic::div_mod::lemma_div_pos_is_pos(i, cols);
    vstd::arithmetic::div_mod::lemma_div_pos_is_pos(j, cols);
    let ci = i % cols;
    let cj = j % cols;
    let ri = i / cols;
    let rj = j / cols;
    lemma_column_bounds(ts, cols, ci, n, i);
    lemma_column_bounds(ts, cols, cj, n, j);
    lemma_row_bounds(ts, cols, ri, n, i);
    lemma_row_bounds(ts, cols, rj, n, j);
    if ci < cj {
        lemma_columns_gap(ts, padding, ci, cj);
    }
    if ri < rj {
        lemma_rows_gap(ts, padding, ri, rj);
    }
}

/// The corners of a region as least and greatest coordinates on each axis,
/// whichever way round the region was given.
pub fn normalize_region(region: [[i32; 3]; 2]) -> (r: [[i32; 3]; 2])
    ensures
        forall|a: int| 0 <= a < 3 ==> r[0][a] == min_i(region[0][a] as int, region[1][a] as int),
        forall|a: int| 0 <= a < 3 ==> r[1][a] == max_i(region[0][a] as int, region[1][a] as int),
{
    let mut lo = [0i32; 3];
    let mut hi = [0i32; 3];
    let mut a: usize = 0;
    while a < 3
        invariant
            a <= 3,
            forall|b: int| 0 <= b < a ==> lo[b] == min_i(region[0][b] as int, region[1][b] as int),
            forall|b: int| 0 <= b < a ==> hi[b] == max_i(region[0][b] as int, region[1][b] as int),
        decreases 3 - a,
    {
        let (x, y) = (region[0][a], region[1][a]);
        lo[a] = if x <= y { x } else { y };
        hi[a] = if x >= y { x } else { y };
        a = a + 1;
    }
    [lo, hi]
}

} // verus!
