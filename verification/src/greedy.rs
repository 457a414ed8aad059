//! Greedy meshing of one 32x32 layer of visible faces into rectangles.
//!
//! A layer is 32 columns of 32 bits: bit `y` of column `x` says that the
//! face at `(x, y)` is present. Cells are numbered `x * 32 + y`, which is
//! also the order in which the mesher visits them.
use vstd::prelude::*;

verus! {

/// A rectangle of faces: columns `x .. x + w`, rows `y .. y + h`.
#[derive(Debug, PartialEq, Eq, Structural)]
pub struct Quad {
    pub x: u32,
    pub y: u32,
    pub w: u32,
    pub h: u32,
}

/// Bit `y` of `column` is set.
pub open spec fn bit_set(column: u32, y: int) -> bool {
    0 <= y < 32 && (column >> (y as u32)) & 1u32 == 1u32
}

/// The cells of the 32x32 grid.
pub open spec fn in_grid(c: int) -> bool {
    0 <= c < 1024
}

/// Cell `c` is present in `layer`.
pub open spec fn in_layer(layer: Seq<u32>, c: int) -> bool {
    in_grid(c) && bit_set(layer[c / 32], c % 32)
}

/// The present cells of a layer.
pub open spec fn layer_cells(layer: Seq<u32>) -> Set<int> {
    Set::new(|c: int| in_layer(layer, c))
}

/// Quad `q` covers cell `c`.
pub open spec fn quad_covers(q: Quad, c: int) -> bool {
    &&& in_grid(c)
    &&& q.x <= c / 32 < q.x + q.w
    &&& q.y <= c % 32 < q.y + q.h
}

/// The cells that quad `q` covers.
pub open spec fn quad_cells(q: Quad) -> Set<int> {
    Set::new(|c: int| quad_covers(q, c))
}

/// A set of cells of the grid that the mesher can work on.
pub open spec fn grid_set(cells: Set<int>) -> bool {
    &&& cells.finite()
    &&& forall|c: int| cells.contains(c) ==> in_grid(c)
}

/// `c` is the first cell of `cells` in visiting order.
pub open spec fn is_first_cell(cells: Set<int>, c: int) -> bool {
    &&& cells.contains(c)
    &&& forall|d: int| cells.contains(d) ==> c <= d
}

/// The first cell of `cells` in visiting order.
pub open spec fn first_cell(cells: Set<int>) -> int {
    choose|c: int| is_first_cell(cells, c)
}

/// Length of the run of cells of `cells` in column `x` that starts at row `y`.
pub open spec fn run_len(cells: Set<int>, x: int, y: int) -> nat
    decreases 32 - y,
{
    if 0 <= y < 32 && cells.contains(x * 32 + y) {
        1 + run_len(cells, x, y + 1)
    } else {
        0
    }
}

/// Rows `y .. y + h` of column `x` all belong to `cells`.
pub open spec fn column_full(cells: Set<int>, x: int, y: int, h: int) -> bool {
    forall|k: int| 0 <= k < h ==> #[trigger] cells.contains(x * 32 + y + k)
}

/// Number of consecutive columns from `x` on whose rows `y .. y + h` all
/// belong to `cells`.
pub open spec fn width_from(cells: Set<int>, x: int, y: int, h: int) -> nat
    decreases 32 - x,
{
    if 0 <= x < 32 && column_full(cells, x, y, h) {
        1 + width_from(cells, x + 1, y, h)
    } else {
        0
    }
}

/// The quad that the mesher emits next: it starts at the first cell, is as
/// tall as the run there and as wide as the columns that hold that run.
pub open spec fn next_quad(cells: Set<int>) -> Quad {
    let c = first_cell(cells);
    let x = c / 32;
    let y = c % 32;
    let h = run_len(cells, x, y);
    let w = width_from(cells, x, y, h as int);
    Quad { x: x as u32, y: y as u32, w: w as u32, h: h as u32 }
}

/// The quads that greedy meshing produces for a set of cells, in order.
pub open spec fn greedy_quads(cells: Set<int>) -> Seq<Quad>
    decreases cells.len(),
    when grid_set(cells)
    via greedy_quads_decreases
{
    if cells.len() == 0 {
        Seq::empty()
    } else {
        let q = next_quad(cells);
        seq![q] + greedy_quads(cells.difference(quad_cells(q)))
    }
}

#[via_fn]
proof fn greedy_quads_decreases(cells: Set<int>) {
    if cells.len() != 0 {
        lemma_next_quad_facts(cells);
        let q = next_quad(cells);
        let c = first_cell(cells);
        assert(cells.difference(quad_cells(q)).subset_of(cells.remove(c)));
        vstd::set_lib::lemma_len_subset(cells.difference(quad_cells(q)), cells.remove(c));
    }
}

/// A finite non-empty set of integers has a least element.
proof fn lemma_first_cell_exists(cells: Set<int>)
    requires
        cells.finite(),
        cells.len() != 0,
    ensures
        is_first_cell(cells, first_cell(cells)),
    decreases cells.len(),
{
    let a = cells.choose();
    assert(cells.contains(a));
    let rest = cells.remove(a);
    if rest.len() == 0 {
        assert forall|d: int| cells.contains(d) implies a <= d by {
            if d != a {
                assert(rest.contains(d));
            }
        }
        assert(is_first_cell(cells, a));
    } else {
        lemma_first_cell_exists(rest);
        let m = first_cell(rest);
        if a < m {
            assert forall|d: int| cells.contains(d) implies a <= d by {
                if d != a {
                    assert(rest.contains(d));
                }
            }
            assert(is_first_cell(cells, a));
        } else {
            assert forall|d: int| cells.contains(d) implies m <= d by {
                if d != a {
                    assert(rest.contains(d));
                }
            }
            assert(is_first_cell(cells, m));
        }
    }
}

/// The first cell is the only cell that is first.
proof fn lemma_first_cell_unique(cells: Set<int>, c: int)
    requires
        is_first_cell(cells, c),
    ensures
        first_cell(cells) == c,
{
    let f = first_cell(cells);
    assert(is_first_cell(cells, f));
}

/// The rows of a run all belong to the set.
proof fn lemma_run_len_full(cells: Set<int>, x: int, y: int)
    ensures
        column_full(cells, x, y, run_len(cells, x, y) as int),
        y + run_len(cells, x, y) <= 32 || run_len(cells, x, y) == 0,
    decreases 32 - y,
{
    if 0 <= y < 32 && cells.contains(x * 32 + y) {
        lemma_run_len_full(cells, x, y + 1);
        let h = run_len(cells, x, y);
        assert forall|k: int| 0 <= k < h implies #[trigger] cells.contains(x * 32 + y + k) by {
            if k > 0 {
                assert(cells.contains(x * 32 + (y + 1) + (k - 1)));
            }
        }
    }
}

/// Columns counted by `width_from` are full, and stay inside the grid.
proof fn lemma_width_from_full(cells: Set<int>, x: int, y: int, h: int)
    requires
        0 <= x,
    ensures
        forall|i: int| x <= i < x + width_from(cells, x, y, h) ==> column_full(cells, i, y, h),
        x + width_from(cells, x, y, h) <= 32 || width_from(cells, x, y, h) == 0,
    decreases 32 - x,
{
    if 0 <= x < 32 && column_full(cells, x, y, h) {
        lemma_width_from_full(cells, x + 1, y, h);
    }
}

/// The next quad starts at the first cell, is at least one cell large and
/// lies inside the grid.
proof fn lemma_next_quad_facts(cells: Set<int>)
    requires
        grid_set(cells),
        cells.len() != 0,
    ensures
        is_first_cell(cells, first_cell(cells)),
        ({
            let q = next_quad(cells);
            let c = first_cell(cells);
            &&& q.x == c / 32
            &&& q.y == c % 32
            &&& 1 <= q.w
            &&& 1 <= q.h
            &&& q.x + q.w <= 32
            &&& q.y + q.h <= 32
            &&& quad_covers(q, c)
            &&& forall|d: int| quad_covers(q, d) ==> cells.contains(d)
        }),
{
    lemma_first_cell_exists(cells);
    let c = first_cell(cells);
    let x = c / 32;
    let y = c % 32;
    assert(in_grid(c));
    assert(x * 32 + y == c);
    let h = run_len(cells, x, y);
    lemma_run_len_full(cells, x, y);
    assert(h >= 1);
    let w = width_from(cells, x, y, h as int);
    lemma_width_from_full(cells, x, y, h as int);
    assert(column_full(cells, x, y, h as int));
    assert(w >= 1);
    let q = next_quad(cells);
    assert forall|d: int| quad_covers(q, d) implies cells.contains(d) by {
        let i = d / 32;
        let k = d % 32 - y;
        assert(column_full(cells, i, y, h as int));
        assert(cells.contains(i * 32 + y + k));
        assert(i * 32 + y + k == d);
    }
}


/// Quad `q` has at least one cell and lies inside the grid.
pub open spec fn quad_in_grid(q: Quad) -> bool {
    &&& 1 <= q.w
    &&& 1 <= q.h
    &&& q.x + q.w <= 32
    &&& q.y + q.h <= 32
}

/// `quads` tile `cells` exactly: every quad lies in the grid, every cell of
/// `cells` is covered by some quad, no quad covers a cell outside `cells`,
/// and no two quads share a cell.
pub open spec fn tiles_exactly(quads: Seq<Quad>, cells: Set<int>) -> bool {
    &&& forall|i: int| 0 <= i < quads.len() ==> quad_in_grid(#[trigger] quads[i])
    &&& forall|c: int|
        cells.contains(c) <==> exists|i: int| 0 <= i < quads.len() && quad_covers(#[trigger] quads[i], c)
    &&& forall|i: int, j: int, c: int|
        0 <= i < quads.len() && 0 <= j < quads.len() && i != j && #[trigger] quad_covers(quads[i], c)
            ==> !#[trigger] quad_covers(quads[j], c)
}

/// Greedy meshing tiles the cells exactly: the quads lie in the grid, cover
/// every present cell and no absent one, and never overlap.
pub proof fn lemma_greedy_tiles_exactly(cells: Set<int>)
    requires
        grid_set(cells),
    ensures
        tiles_exactly(greedy_quads(cells), cells),
    decreases cells.len(),
{
    let qs = greedy_quads(cells);
    if cells.len() == 0 {
        assert(qs.len() == 0);
        assert forall|c: int| cells.contains(c) implies false by {
            assert(cells.contains(c));
        }
    } else {
        lemma_next_quad_facts(cells);
        let q = next_quad(cells);
        let c0 = first_cell(cells);
        let rest = cells.difference(quad_cells(q));
        assert(rest.subset_of(cells.remove(c0)));
        vstd::set_lib::lemma_len_subset(rest, cells.remove(c0));
        lemma_greedy_tiles_exactly(rest);
        let tail = greedy_quads(rest);
        assert(qs == seq![q] + tail);
        assert forall|i: int| 0 <= i < qs.len() implies quad_in_grid(#[trigger] qs[i]) by {
            if i > 0 {
                assert(qs[i] == tail[i - 1]);
            }
        }
        assert forall|c: int|
            cells.contains(c) <==> exists|i: int| 0 <= i < qs.len() && quad_covers(#[trigger] qs[i], c) by {
            if cells.contains(c) {
                if quad_covers(q, c) {
                    assert(quad_covers(qs[0], c));
                } else {
                    assert(rest.contains(c));
                    let j = choose|j: int| 0 <= j < tail.len() && quad_covers(#[trigger] tail[j], c);
                    assert(qs[j + 1] == tail[j]);
                    assert(quad_covers(qs[j + 1], c));
                }
            }
            if exists|i: int| 0 <= i < qs.len() && quad_covers(#[trigger] qs[i], c) {
                let i = choose|i: int| 0 <= i < qs.len() && quad_covers(#[trigger] qs[i], c);
                if i > 0 {
                    assert(qs[i] == tail[i - 1]);
                    assert(rest.contains(c));
                }
            }
        }
        assert forall|i: int, j: int, c: int|
            0 <= i < qs.len() && 0 <= j < qs.len() && i != j && #[trigger] quad_covers(qs[i], c)
                implies !#[trigger] quad_covers(qs[j], c) by {
            if i == 0 {
                assert(qs[j] == tail[j - 1]);
                if quad_covers(qs[j], c) {
                    assert(rest.contains(c));
                }
            } else if j == 0 {
                assert(qs[i] == tail[i - 1]);
                assert(rest.contains(c));
            } else {
                assert(qs[i] == tail[i - 1]);
                assert(qs[j] == tail[j - 1]);
            }
        }
    }
}


// ---------------------------------------------------------------------------
// The mesher itself.
// ---------------------------------------------------------------------------

/// The cells that the mesher has still to visit when it stands at row `y`
/// of column `x` of `layer`: the rest of column `x` and every later column.
pub open spec fn remaining(layer: Seq<u32>, x: int, y: int) -> Set<int> {
    Set::new(|c: int| in_layer(layer, c) && (c / 32 > x || (c / 32 == x && c % 32 >= y)))
}

/// The bits `y .. y + h` of a 32-bit column.
pub open spec fn span_mask(y: u32, h: u32) -> u32 {
    if h < 32 {
        (!(0xffff_ffffu32 << h)) << y
    } else {
        0xffff_ffffu32 << y
    }
}

proof fn lemma_remaining_grid(layer: Seq<u32>, x: int, y: int)
    ensures
        grid_set(remaining(layer, x, y)),
{
    let r = remaining(layer, x, y);
    vstd::set_lib::lemma_int_range(0, 1024);
    assert(r.subset_of(vstd::set_lib::set_int_range(0, 1024)));
    vstd::set_lib::lemma_set_subset_finite(vstd::set_lib::set_int_range(0, 1024), r);
}

proof fn lemma_shr_bit(v: u32, y: u32, j: u32)
    by (bit_vector)
    requires
        y < 32,
        j < 32,
    ensures
        y + j < 32 ==> ((v >> y) >> j) & 1u32 == (v >> ((y + j) as u32)) & 1u32,
        y + j >= 32 ==> ((v >> y) >> j) & 1u32 == 0u32,
{
}

/// Skipping the trailing zeros of `v >> y` skips only absent rows, and lands
/// on a present row unless the column has none left.
proof fn lemma_skip_zeros(v: u32, y: u32)
    requires
        y < 32,
    ensures
        forall|r: int| y <= r < y + vstd::std_specs::bits::u32_trailing_zeros(v >> y) ==> !bit_set(v, r),
        y + vstd::std_specs::bits::u32_trailing_zeros(v >> y) < 32 ==> bit_set(v, y + vstd::std_specs::bits::u32_trailing_zeros(v >> y)),
{
    let t = vstd::std_specs::bits::u32_trailing_zeros(v >> y);
    vstd::std_specs::bits::axiom_u32_trailing_zeros(v >> y);
    assert forall|r: int| y <= r < y + t implies !bit_set(v, r) by {
        if r < 32 {
            let j = (r - y) as u32;
            lemma_shr_bit(v, y, j);
            assert(((v >> y) >> j) & 1u32 == 0u32);
        }
    }
    if y + t < 32 {
        lemma_shr_bit(v, y, t);
    }
}

/// The trailing ones of `v >> y` are the run of present rows from `y`.
proof fn lemma_run_ones(v: u32, y: u32)
    requires
        y < 32,
        bit_set(v, y as int),
    ensures
        1 <= vstd::std_specs::bits::u32_trailing_ones(v >> y),
        y + vstd::std_specs::bits::u32_trailing_ones(v >> y) <= 32,
        forall|r: int| y <= r < y + vstd::std_specs::bits::u32_trailing_ones(v >> y) ==> bit_set(v, r),
        y + vstd::std_specs::bits::u32_trailing_ones(v >> y) < 32 ==> !bit_set(v, y + vstd::std_specs::bits::u32_trailing_ones(v >> y)),
{
    let h = vstd::std_specs::bits::u32_trailing_ones(v >> y);
    vstd::std_specs::bits::axiom_u32_trailing_ones(v >> y);
    lemma_shr_bit(v, y, 0);
    assert((v >> y) >> 0u32 == v >> y) by (bit_vector);
    if y + h > 32 {
        let j = (32 - y) as u32;
        lemma_shr_bit(v, y, j);
        assert(((v >> y) >> j) & 1u32 == 1u32);
    }
    assert forall|r: int| y <= r < y + h implies bit_set(v, r) by {
        let j = (r - y) as u32;
        lemma_shr_bit(v, y, j);
        assert(((v >> y) >> j) & 1u32 == 1u32);
    }
    if y + h < 32 {
        lemma_shr_bit(v, y, h);
    }
}

proof fn lemma_span_mask_bit(y: u32, h: u32, r: u32)
    by (bit_vector)
    requires
        y + h <= 32,
        r < 32,
    ensures
        ((span_mask(y, h) >> r) & 1u32 == 1u32) <==> (y <= r && r < y + h),
{
}

proof fn lemma_span_mask_step(v: u32, y: u32, h: u32)
    by (bit_vector)
    requires
        y + h <= 32,
        1 <= h,
    ensures
        (v & span_mask(y, h) == span_mask(y, h)) <==> (v & span_mask(y, (h - 1) as u32)
            == span_mask(y, (h - 1) as u32) && (v >> ((y + h - 1) as u32)) & 1u32 == 1u32),
{
}

/// A column holds every bit of a span exactly when `column & mask == mask`.
proof fn lemma_mask_full(v: u32, y: u32, h: u32)
    requires
        y + h <= 32,
    ensures
        (v & span_mask(y, h) == span_mask(y, h)) <==> (forall|k: int|
            0 <= k < h ==> #[trigger] bit_set(v, y + k)),
    decreases h,
{
    if h == 0 {
        assert(v & span_mask(y, 0) == span_mask(y, 0)) by (bit_vector);
    } else {
        lemma_mask_full(v, y, (h - 1) as u32);
        lemma_span_mask_step(v, y, h);
        if v & span_mask(y, h) == span_mask(y, h) {
            assert forall|k: int| 0 <= k < h implies #[trigger] bit_set(v, y + k) by {
                if k < h - 1 {
                    assert(bit_set(v, y + k));
                }
            }
        }
        if forall|k: int| 0 <= k < h ==> #[trigger] bit_set(v, y + k) {
            assert(bit_set(v, y + (h - 1)));
            assert forall|k: int| 0 <= k < h - 1 implies #[trigger] bit_set(v, y + k) by {
                assert(bit_set(v, y + k));
            }
        }
    }
}

proof fn lemma_clear_bit(v: u32, m: u32, r: u32)
    by (bit_vector)
    requires
        r < 32,
    ensures
        (((v & !m) >> r) & 1u32 == 1u32) <==> ((v >> r) & 1u32 == 1u32 && (m >> r) & 1u32 != 1u32),
{
}

proof fn lemma_run_exact(cells: Set<int>, x: int, y: int, h: int)
    requires
        0 <= y,
        0 <= h,
        y + h <= 32,
        forall|k: int| 0 <= k < h ==> #[trigger] cells.contains(x * 32 + y + k),
        y + h < 32 ==> !cells.contains(x * 32 + y + h),
    ensures
        run_len(cells, x, y) == h,
    decreases h,
{
    if h > 0 {
        assert(cells.contains(x * 32 + y + 0));
        assert forall|k: int| 0 <= k < h - 1 implies #[trigger] cells.contains(x * 32 + (y + 1) + k) by {
            assert(cells.contains(x * 32 + y + (k + 1)));
        }
        lemma_run_exact(cells, x, y + 1, h - 1);
    } else if y < 32 {
        assert(!cells.contains(x * 32 + y + 0));
    }
}

proof fn lemma_width_exact(cells: Set<int>, a: int, b: int, y: int, h: int)
    requires
        0 <= a <= b <= 32,
        forall|i: int| a <= i < b ==> column_full(cells, i, y, h),
        b < 32 ==> !column_full(cells, b, y, h),
    ensures
        width_from(cells, a, y, h) == b - a,
    decreases b - a,
{
    if a < b {
        lemma_width_exact(cells, a + 1, b, y, h);
    }
}


proof fn lemma_cell_coords(x: int, r: int)
    by (nonlinear_arith)
    requires
        0 <= r < 32,
    ensures
        (x * 32 + r) / 32 == x,
        (x * 32 + r) % 32 == r,
{
}

proof fn lemma_coords_cell(c: int)
    by (nonlinear_arith)
    requires
        0 <= c,
    ensures
        c == (c / 32) * 32 + c % 32,
        0 <= c % 32 < 32,
{
}

/// One quad of the mesher: from the state `before` at row `y` of column `x`
/// (where a run of `h` faces starts), covering `w` columns, to the state
/// `after` at row `y + h`.
proof fn lemma_greedy_step(
    before: Seq<u32>,
    after: Seq<u32>,
    x: u32,
    y: u32,
    w: u32,
    h: u32,
    mask: u32,
)
    requires
        before.len() == 32,
        after.len() == 32,
        x < 32,
        y < 32,
        1 <= h,
        y + h <= 32,
        mask == span_mask(y, h),
        1 <= w,
        x + w <= 32,
        forall|r: int| y <= r < y + h ==> bit_set(before[x as int], r),
        y + h < 32 ==> !bit_set(before[x as int], y + h),
        forall|i: int| 0 <= i < 32 && (i <= x || i >= x + w) ==> after[i] == before[i],
        forall|i: int| x < i < x + w ==> #[trigger] after[i] == before[i] & !mask,
        forall|i: int| x < i < x + w ==> #[trigger] before[i] & mask == mask,
        x + w < 32 ==> before[x + w] & mask != mask,
    ensures
        greedy_quads(remaining(before, x as int, y as int)) == seq![Quad { x, y, w, h }]
            + greedy_quads(remaining(after, x as int, y + h)),
{
    let rem0 = remaining(before, x as int, y as int);
    let q = Quad { x, y, w, h };
    let c0 = x * 32 + y;
    lemma_remaining_grid(before, x as int, y as int);
    lemma_cell_coords(x as int, y as int);
    assert(bit_set(before[x as int], y as int));
    assert(rem0.contains(c0));
    assert forall|d: int| rem0.contains(d) implies c0 <= d by {
        lemma_coords_cell(d);
    }
    assert(is_first_cell(rem0, c0));
    lemma_first_cell_unique(rem0, c0);
    // the run
    assert forall|k: int| 0 <= k < h implies #[trigger] rem0.contains(x * 32 + y + k) by {
        lemma_cell_coords(x as int, y + k);
    }
    if y + h < 32 {
        lemma_cell_coords(x as int, y + h);
        assert(!rem0.contains(x * 32 + y + h));
    }
    lemma_run_exact(rem0, x as int, y as int, h as int);
    // the width
    assert forall|i: int| x <= i < x + w implies column_full(rem0, i, y as int, h as int) by {
        if i > x {
            lemma_mask_full(before[i], y, h);
            assert(before[i] & mask == mask);
            assert forall|k: int| 0 <= k < h implies #[trigger] rem0.contains(i * 32 + y + k) by {
                assert(bit_set(before[i], y + k));
                lemma_cell_coords(i, y + k);
            }
        } else {
            assert forall|k: int| 0 <= k < h implies #[trigger] rem0.contains(i * 32 + y + k) by {
                lemma_cell_coords(i, y + k);
            }
        }
    }
    if x + w < 32 {
        let i = x + w;
        lemma_mask_full(before[i as int], y, h);
        let k = choose|k: int| 0 <= k < h && !#[trigger] bit_set(before[i as int], y + k);
        lemma_cell_coords(i as int, y + k);
        assert(!rem0.contains(i * 32 + y + k));
        assert(!column_full(rem0, i as int, y as int, h as int));
    }
    lemma_width_exact(rem0, x as int, x + w, y as int, h as int);
    assert(next_quad(rem0) == q);
    // what is left
    let rest = rem0.difference(quad_cells(q));
    let rem1 = remaining(after, x as int, y + h);
    assert forall|c: int| rest.contains(c) <==> rem1.contains(c) by {
        if in_grid(c) {
            lemma_coords_cell(c);
            let i = c / 32;
            let r = c % 32;
            if x < i < x + w {
                lemma_clear_bit(before[i], mask, r as u32);
                lemma_span_mask_bit(y, h, r as u32);
            }
        }
    }
    assert(rest =~= rem1);
    assert(rem0.len() != 0);
}

/// Greedy meshing of one layer: bit `y` of `layer[x]` marks the face at
/// `(x, y)`. Each quad starts at the first face not yet covered (column by
/// column, row by row), is as tall as the run of faces there and as wide as
/// the following columns that hold that whole run; the faces it covers are
/// then taken out. The quads come out in the order in which they are found.
pub fn greedy_mesh(layer: &[u32; 32]) -> (quads: Vec<Quad>)
    ensures
        quads@ == greedy_quads(layer_cells(layer@)),
        tiles_exactly(quads@, layer_cells(layer@)),
{
    let mut quads: Vec<Quad> = Vec::new();
    let mut layer: [u32; 32] = *layer;
    let ghost cells0 = layer_cells(layer@);
    proof {
        assert(remaining(layer@, 0, 0) =~= cells0);
        lemma_remaining_grid(layer@, 0, 0);
    }
    let mut x: u32 = 0;
    while x < 32
        invariant
            x <= 32,
            quads@ + greedy_quads(remaining(layer@, x as int, 0)) == greedy_quads(cells0),
        decreases 32 - x,
    {
        let mut y: u32 = 0;
        while y < 32
            invariant
                x < 32,
                y <= 64,
                quads@ + greedy_quads(remaining(layer@, x as int, y as int)) == greedy_quads(cells0),
            ensures
                32 <= y,
                quads@ + greedy_quads(remaining(layer@, x as int, y as int)) == greedy_quads(cells0),
            decreases 64 - y,
        {
            let column = layer[x as usize];
            let temp_value = (column >> y).trailing_zeros();
            proof {
                lemma_skip_zeros(column, y);
                assert(remaining(layer@, x as int, y as int) =~= remaining(
                    layer@,
                    x as int,
                    y + temp_value,
                ));
            }
            y += temp_value;
            if y >= 32 {
                break;
            }
            let ghost before = layer@;
            let ghost rem0 = remaining(before, x as int, y as int);
            let h = (column >> y).trailing_ones();
            proof {
                lemma_run_ones(column, y);
            }
            proof {
                assert(h < 32 ==> (1u32 << h) >= 1u32) by (bit_vector);
                assert(h < 32 ==> ((1u32 << h) - 1) as u32 == !(0xffff_ffffu32 << h))
                    by (bit_vector);
                assert(!0u32 == 0xffff_ffffu32) by (bit_vector);
            }
            let h_mask_bottom = if h < 32 {
                (1u32 << h) - 1
            } else {
                !0u32
            };
            let h_mask = h_mask_bottom << y;
            assert(h_mask == span_mask(y, h));
            let mut w: u32 = 1;
            let mut extending = true;
            while extending && x + w < 32
                invariant
                    x < 32,
                    y < 32,
                    1 <= h,
                    y + h <= 32,
                    h_mask == span_mask(y, h),
                    1 <= w,
                    x + w <= 32,
                    layer@.len() == 32,
                    before.len() == 32,
                    forall|i: int|
                        0 <= i < 32 && (i <= x || i >= x + w) ==> layer@[i] == before[i],
                    forall|i: int|
                        x < i < x + w ==> layer@[i] == before[i] & !h_mask && before[i] & h_mask
                            == h_mask,
                    !extending ==> x + w < 32 && before[x + w] & h_mask != h_mask,
                decreases 32 - x - w + (if extending { 1int } else { 0int }),
            {
                if layer[(x + w) as usize] & h_mask == h_mask {
                    let ghost i = x + w;
                    assert(layer@[i as int] == before[i as int]);
                    layer[(x + w) as usize] = layer[(x + w) as usize] & !h_mask;
                    w += 1;
                    assert(layer@[i as int] == before[i as int] & !h_mask);
                } else {
                    extending = false;
                }
            }
            let ghost q = Quad { x, y, w, h };
            let ghost done = quads@;
            proof {
                assert forall|i: int| x < i < x + w implies layer@[i] == before[i] & !h_mask by {
                    assert(layer@[i] == before[i] & !h_mask);
                }
                assert forall|i: int| x < i < x + w implies before[i] & h_mask == h_mask by {
                    assert(layer@[i] == before[i] & !h_mask);
                }
                lemma_greedy_step(before, layer@, x, y, w, h, h_mask);
            }
            quads.push(Quad { x, y, w, h });
            y += h;
            proof {
                assert(quads@ + greedy_quads(remaining(layer@, x as int, y as int)) =~= done + (seq![q]
                    + greedy_quads(remaining(layer@, x as int, y as int))));
            }
        }
        proof {
            assert(remaining(layer@, x as int, y as int) =~= remaining(layer@, x + 1, 0));
        }
        x += 1;
    }
    proof {
        assert(remaining(layer@, 32, 0) =~= Set::<int>::empty());
        lemma_remaining_grid(layer@, 32, 0);
        lemma_greedy_tiles_exactly(cells0);
    }
    quads
}

} // verus!
