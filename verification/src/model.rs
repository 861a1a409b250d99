//! Mathematical model of the sandpile grid and of one synchronous
//! generation of toppling.
//!
//! The grid is a row-major sequence of counts. A cell topples when its
//! count exceeds the threshold of 3: it loses 4 grains and every in-bounds
//! orthogonal neighbor gains 1. `cell_after_step` is the simultaneous
//! ("brute-force") rule: every currently-overloaded cell topples at once,
//! all decisions read from the same frozen snapshot. The incremental
//! engine and the full-rescan engine both realize exactly this function,
//! which is what makes them interchangeable.

use vstd::prelude::*;

verus! {

/// Row-major index of the cell at `(x, y)`.
pub open spec fn grid_index(width: int, x: int, y: int) -> int {
    y * width + x
}

/// Whether `(x, y)` lies inside a `width` by `height` grid.
pub open spec fn in_grid(width: int, height: int, x: int, y: int) -> bool {
    0 <= x < width && 0 <= y < height
}

/// Whether the cell at sequence index `i` exceeds the topple threshold.
pub open spec fn over_threshold(counts: Seq<u32>, i: int) -> bool {
    counts[i] > 3
}

/// 1 if the condition holds, 0 otherwise.
pub open spec fn count_if(b: bool) -> int {
    if b {
        1
    } else {
        0
    }
}

/// Whether index `i` both belongs to the toppling set `s` and exceeds the
/// threshold in the snapshot, i.e. actually topples.
pub open spec fn topples_in(snap: Seq<u32>, s: Set<int>, i: int) -> bool {
    s.contains(i) && over_threshold(snap, i)
}

/// Grains the cell `(x, y)` gains from in-bounds neighbors that topple,
/// where a neighbor topples when it is in `s` and over the threshold.
pub open spec fn neighbor_gain_from(
    snap: Seq<u32>,
    width: int,
    height: int,
    s: Set<int>,
    x: int,
    y: int,
) -> int {
    count_if(x > 0 && topples_in(snap, s, grid_index(width, x - 1, y))) + count_if(
        x + 1 < width && topples_in(snap, s, grid_index(width, x + 1, y)),
    ) + count_if(y > 0 && topples_in(snap, s, grid_index(width, x, y - 1))) + count_if(
        y + 1 < height && topples_in(snap, s, grid_index(width, x, y + 1)),
    )
}

/// Net change of the count at `(x, y)` once every cell of `s` that is over
/// the threshold has toppled: minus 4 if the cell itself topples, plus one
/// grain per toppling in-bounds neighbor.
pub open spec fn cell_delta_from(
    snap: Seq<u32>,
    width: int,
    height: int,
    s: Set<int>,
    x: int,
    y: int,
) -> int {
    neighbor_gain_from(snap, width, height, s, x, y) - 4 * count_if(
        topples_in(snap, s, grid_index(width, x, y)),
    )
}

/// Grains the cell `(x, y)` gains when every overloaded cell of the grid
/// topples simultaneously.
pub open spec fn neighbor_gain(snap: Seq<u32>, width: int, height: int, x: int, y: int) -> int {
    count_if(x > 0 && over_threshold(snap, grid_index(width, x - 1, y))) + count_if(
        x + 1 < width && over_threshold(snap, grid_index(width, x + 1, y)),
    ) + count_if(y > 0 && over_threshold(snap, grid_index(width, x, y - 1))) + count_if(
        y + 1 < height && over_threshold(snap, grid_index(width, x, y + 1)),
    )
}

/// The count of cell `(x, y)` after one synchronous generation: every cell
/// over the threshold in the snapshot topples at once.
pub open spec fn cell_after_step(snap: Seq<u32>, width: int, height: int, x: int, y: int) -> int {
    snap[grid_index(width, x, y)] + neighbor_gain(snap, width, height, x, y) - 4 * count_if(
        over_threshold(snap, grid_index(width, x, y)),
    )
}

/// The change a single topple of the cell `(x, y)` makes to the count at
/// sequence index `g`.
pub open spec fn topple_delta(width: int, height: int, x: int, y: int, g: int) -> int {
    (if g == grid_index(width, x, y) {
        -4
    } else {
        0
    }) + count_if(x > 0 && g == grid_index(width, x - 1, y)) + count_if(
        x + 1 < width && g == grid_index(width, x + 1, y),
    ) + count_if(y > 0 && g == grid_index(width, x, y - 1)) + count_if(
        y + 1 < height && g == grid_index(width, x, y + 1),
    )
}

/// Number of in-bounds orthogonal neighbors of `(x, y)`: 4 for an interior
/// cell, fewer on an edge or in a corner.
pub open spec fn in_bounds_neighbor_count(width: int, height: int, x: int, y: int) -> int {
    count_if(x > 0) + count_if(x + 1 < width) + count_if(y > 0) + count_if(y + 1 < height)
}

/// The cells among the first `n` whose snapshot count is over the
/// threshold: the part of a full rescan already processed.
pub open spec fn scanned_over_set(snap: Seq<u32>, n: int) -> Set<int> {
    Set::new(|g: int| 0 <= g < n && over_threshold(snap, g))
}

/// Total number of grains on the grid.
pub open spec fn grid_sum(counts: Seq<u32>) -> int
    decreases counts.len(),
{
    if counts.len() == 0 {
        0
    } else {
        grid_sum(counts.drop_last()) + counts.last()
    }
}

/// The total grain count is never negative.
pub proof fn lemma_grid_sum_nonneg(counts: Seq<u32>)
    ensures
        grid_sum(counts) >= 0,
    decreases counts.len(),
{
    if counts.len() > 0 {
        lemma_grid_sum_nonneg(counts.drop_last());
    }
}

/// Appending a count adds it to the total.
pub proof fn lemma_grid_sum_push(counts: Seq<u32>, v: u32)
    ensures
        grid_sum(counts.push(v)) == grid_sum(counts) + v,
{
    assert(counts.push(v).drop_last() =~= counts);
    assert(counts.push(v).last() == v);
}

/// Replacing one count moves the total by the difference.
pub proof fn lemma_grid_sum_update(counts: Seq<u32>, i: int, v: u32)
    requires
        0 <= i < counts.len(),
    ensures
        grid_sum(counts.update(i, v)) == grid_sum(counts) - counts[i] + v,
    decreases counts.len(),
{
    let upd = counts.update(i, v);
    if i == counts.len() - 1 {
        assert(upd.drop_last() =~= counts.drop_last());
        assert(upd.last() == v);
    } else {
        assert(upd.drop_last() =~= counts.drop_last().update(i, v));
        assert(upd.last() == counts.last());
        lemma_grid_sum_update(counts.drop_last(), i, v);
    }
}

/// A single count never exceeds the total.
pub proof fn lemma_grid_sum_element(counts: Seq<u32>, i: int)
    requires
        0 <= i < counts.len(),
    ensures
        counts[i] <= grid_sum(counts),
    decreases counts.len(),
{
    if i == counts.len() - 1 {
        lemma_grid_sum_nonneg(counts.drop_last());
    } else {
        lemma_grid_sum_element(counts.drop_last(), i);
    }
}

/// Two distinct counts together never exceed the total.
pub proof fn lemma_grid_sum_pair(counts: Seq<u32>, i: int, j: int)
    requires
        0 <= i < counts.len(),
        0 <= j < counts.len(),
        i != j,
    ensures
        counts[i] + counts[j] <= grid_sum(counts),
    decreases counts.len(),
{
    let last = counts.len() - 1;
    if i == last {
        lemma_grid_sum_element(counts.drop_last(), j);
    } else if j == last {
        lemma_grid_sum_element(counts.drop_last(), i);
    } else {
        lemma_grid_sum_pair(counts.drop_last(), i, j);
    }
}

/// Row-major indexing is injective on in-bounds coordinates.
pub proof fn lemma_grid_index_injective(
    width: int,
    height: int,
    x1: int,
    y1: int,
    x2: int,
    y2: int,
)
    requires
        in_grid(width, height, x1, y1),
        in_grid(width, height, x2, y2),
        grid_index(width, x1, y1) == grid_index(width, x2, y2),
    ensures
        x1 == x2,
        y1 == y2,
{
    assert(y1 == y2 && x1 == x2) by (nonlinear_arith)
        requires
            0 <= x1 < width,
            0 <= x2 < width,
            0 <= y1 < height,
            0 <= y2 < height,
            y1 * width + x1 == y2 * width + x2,
    ;
}

/// An in-bounds cell has an in-bounds row-major index.
pub proof fn lemma_grid_index_bounds(width: int, height: int, x: int, y: int)
    requires
        in_grid(width, height, x, y),
    ensures
        0 <= grid_index(width, x, y) < width * height,
{
    assert(0 <= y * width + x < width * height) by (nonlinear_arith)
        requires
            0 <= x < width,
            0 <= y < height,
    ;
}

/// Adding the topple of an overloaded cell not yet in the toppling set
/// changes each cell's net gain by exactly that topple's contribution.
#[verifier::rlimit(60)]
pub proof fn lemma_delta_insert(
    snap: Seq<u32>,
    width: int,
    height: int,
    s: Set<int>,
    x: int,
    y: int,
    x2: int,
    y2: int,
)
    requires
        in_grid(width, height, x, y),
        in_grid(width, height, x2, y2),
        !s.contains(grid_index(width, x, y)),
        over_threshold(snap, grid_index(width, x, y)),
    ensures
        cell_delta_from(snap, width, height, s.insert(grid_index(width, x, y)), x2, y2)
            == cell_delta_from(snap, width, height, s, x2, y2) + topple_delta(
            width,
            height,
            x,
            y,
            grid_index(width, x2, y2),
        ),
{
    let e = grid_index(width, x, y);
    let s2 = s.insert(e);
    let g2 = grid_index(width, x2, y2);
    // The toppled-self term changes only for the cell (x, y) itself.
    if g2 == e {
        lemma_grid_index_injective(width, height, x, y, x2, y2);
    }
    // Each neighbor term of (x2, y2) changes only when that neighbor is
    // exactly the newly inserted cell.
    if x2 > 0 && grid_index(width, x2 - 1, y2) == e {
        lemma_grid_index_injective(width, height, x, y, x2 - 1, y2);
    }
    if x2 + 1 < width && grid_index(width, x2 + 1, y2) == e {
        lemma_grid_index_injective(width, height, x, y, x2 + 1, y2);
    }
    if y2 > 0 && grid_index(width, x2, y2 - 1) == e {
        lemma_grid_index_injective(width, height, x, y, x2, y2 - 1);
    }
    if y2 + 1 < height && grid_index(width, x2, y2 + 1) == e {
        lemma_grid_index_injective(width, height, x, y, x2, y2 + 1);
    }
    // Conversely, the inserted cell is adjacent to (x2, y2) exactly when
    // one of those neighbor coordinates matches.
    if x > 0 && g2 == grid_index(width, x - 1, y) {
        lemma_grid_index_injective(width, height, x - 1, y, x2, y2);
    }
    if x + 1 < width && g2 == grid_index(width, x + 1, y) {
        lemma_grid_index_injective(width, height, x + 1, y, x2, y2);
    }
    if y > 0 && g2 == grid_index(width, x, y - 1) {
        lemma_grid_index_injective(width, height, x, y - 1, x2, y2);
    }
    if y + 1 < height && g2 == grid_index(width, x, y + 1) {
        lemma_grid_index_injective(width, height, x, y + 1, x2, y2);
    }
}

/// The grid after the single cell `(x, y)` topples: it loses 4 grains and
/// every in-bounds orthogonal neighbor gains 1, applied in a fixed order.
pub open spec fn apply_topple(counts: Seq<u32>, width: int, height: int, x: int, y: int) -> Seq<
    u32,
> {
    let e = grid_index(width, x, y);
    let c0 = counts.update(e, (counts[e] - 4) as u32);
    let c1 = if x > 0 {
        c0.update(e - 1, (c0[e - 1] + 1) as u32)
    } else {
        c0
    };
    let c2 = if x + 1 < width {
        c1.update(e + 1, (c1[e + 1] + 1) as u32)
    } else {
        c1
    };
    let c3 = if y > 0 {
        c2.update(e - width, (c2[e - width] + 1) as u32)
    } else {
        c2
    };
    if y + 1 < height {
        c3.update(e + width, (c3[e + width] + 1) as u32)
    } else {
        c3
    }
}

/// A topple of `(x, y)` changes each in-bounds cell by exactly that
/// topple's contribution `topple_delta`.
#[verifier::rlimit(100)]
pub proof fn lemma_apply_topple_pointwise(
    counts: Seq<u32>,
    width: int,
    height: int,
    x: int,
    y: int,
    x2: int,
    y2: int,
)
    requires
        counts.len() == width * height,
        in_grid(width, height, x, y),
        in_grid(width, height, x2, y2),
        counts[grid_index(width, x, y)] >= 4,
        x > 0 ==> counts[grid_index(width, x - 1, y)] + 1 <= u32::MAX,
        x + 1 < width ==> counts[grid_index(width, x + 1, y)] + 1 <= u32::MAX,
        y > 0 ==> counts[grid_index(width, x, y - 1)] + 1 <= u32::MAX,
        y + 1 < height ==> counts[grid_index(width, x, y + 1)] + 1 <= u32::MAX,
    ensures
        apply_topple(counts, width, height, x, y).len() == counts.len(),
        apply_topple(counts, width, height, x, y)[grid_index(width, x2, y2)] == counts[grid_index(
            width,
            x2,
            y2,
        )] + topple_delta(width, height, x, y, grid_index(width, x2, y2)),
{
    let e = grid_index(width, x, y);
    let g2 = grid_index(width, x2, y2);
    assert((y - 1) * width == y * width - width && (y + 1) * width == y * width + width
        && (y2 - 1) * width == y2 * width - width && (y2 + 1) * width == y2 * width + width)
        by (nonlinear_arith);
    lemma_grid_index_bounds(width, height, x, y);
    lemma_grid_index_bounds(width, height, x2, y2);
    if x > 0 {
        lemma_grid_index_bounds(width, height, x - 1, y);
    }
    if x + 1 < width {
        lemma_grid_index_bounds(width, height, x + 1, y);
    }
    if y > 0 {
        lemma_grid_index_bounds(width, height, x, y - 1);
    }
    if y + 1 < height {
        lemma_grid_index_bounds(width, height, x, y + 1);
    }
    // The five written cells, in the order the updates are applied.
    let c0 = counts.update(e, (counts[e] - 4) as u32);
    let c1 = if x > 0 {
        c0.update(e - 1, (c0[e - 1] + 1) as u32)
    } else {
        c0
    };
    let c2 = if x + 1 < width {
        c1.update(e + 1, (c1[e + 1] + 1) as u32)
    } else {
        c1
    };
    let c3 = if y > 0 {
        c2.update(e - width, (c2[e - width] + 1) as u32)
    } else {
        c2
    };
    let c4 = if y + 1 < height {
        c3.update(e + width, (c3[e + width] + 1) as u32)
    } else {
        c3
    };
    assert(apply_topple(counts, width, height, x, y) == c4);
    // Decide, for the observed cell, which of the five written cells it is.
    if g2 == e {
        lemma_grid_index_injective(width, height, x, y, x2, y2);
    }
    if x > 0 && g2 == grid_index(width, x - 1, y) {
        lemma_grid_index_injective(width, height, x - 1, y, x2, y2);
    }
    if x + 1 < width && g2 == grid_index(width, x + 1, y) {
        lemma_grid_index_injective(width, height, x + 1, y, x2, y2);
    }
    if y > 0 && g2 == grid_index(width, x, y - 1) {
        lemma_grid_index_injective(width, height, x, y - 1, x2, y2);
    }
    if y + 1 < height && g2 == grid_index(width, x, y + 1) {
        lemma_grid_index_injective(width, height, x, y + 1, x2, y2);
    }
}

/// With an empty toppling set nothing changes.
pub proof fn lemma_delta_empty(snap: Seq<u32>, width: int, height: int, x: int, y: int)
    ensures
        cell_delta_from(snap, width, height, Set::empty(), x, y) == 0,
{
}

/// Once the toppling set covers every overloaded cell, the incremental net
/// gain coincides with the simultaneous rule `cell_after_step`.
pub proof fn lemma_delta_covering(
    snap: Seq<u32>,
    width: int,
    height: int,
    s: Set<int>,
    x: int,
    y: int,
)
    requires
        in_grid(width, height, x, y),
        snap.len() == width * height,
        forall|i: int|
            0 <= i < snap.len() && over_threshold(snap, i) ==> #[trigger] s.contains(i),
    ensures
        snap[grid_index(width, x, y)] + cell_delta_from(snap, width, height, s, x, y)
            == cell_after_step(snap, width, height, x, y),
{
    lemma_grid_index_bounds(width, height, x, y);
    if x > 0 {
        lemma_grid_index_bounds(width, height, x - 1, y);
    }
    if x + 1 < width {
        lemma_grid_index_bounds(width, height, x + 1, y);
    }
    if y > 0 {
        lemma_grid_index_bounds(width, height, x, y - 1);
    }
    if y + 1 < height {
        lemma_grid_index_bounds(width, height, x, y + 1);
    }
}

/// Every in-bounds row-major index comes from exactly one in-bounds cell.
pub proof fn lemma_index_to_coords(width: int, height: int, g: int)
    requires
        1 <= width,
        1 <= height,
        0 <= g < width * height,
    ensures
        in_grid(width, height, g % width, g / width),
        grid_index(width, g % width, g / width) == g,
{
    let q = g / width;
    let r = g % width;
    assert(g == width * q + r && 0 <= r < width) by (nonlinear_arith)
        requires
            1 <= width,
            0 <= g,
            q == g / width,
            r == g % width,
    ;
    assert(0 <= q) by (nonlinear_arith)
        requires
            g == width * q + r,
            r < width,
            0 <= g,
            1 <= width,
    ;
    assert(q < height) by (nonlinear_arith)
        requires
            g == width * q + r,
            0 <= r,
            g < width * height,
            1 <= width,
            1 <= height,
    ;
    assert(q * width == width * q) by (nonlinear_arith);
}

/// Boundary mass loss: a topple of a cell with `k` in-bounds neighbors
/// changes the total grain count by exactly `k - 4`. For an interior cell
/// (`k == 4`) mass is conserved; for an edge or corner cell mass strictly
/// decreases, because grains sent outside the grid are discarded.
pub proof fn lemma_topple_mass(counts: Seq<u32>, width: int, height: int, x: int, y: int)
    requires
        1 <= width,
        1 <= height,
        counts.len() == width * height,
        in_grid(width, height, x, y),
        counts[grid_index(width, x, y)] >= 4,
        grid_sum(counts) <= u32::MAX,
    ensures
        grid_sum(apply_topple(counts, width, height, x, y)) == grid_sum(counts) - 4
            + in_bounds_neighbor_count(width, height, x, y),
{
    let e = grid_index(width, x, y);
    assert((y - 1) * width == y * width - width && (y + 1) * width == y * width + width)
        by (nonlinear_arith);
    lemma_grid_index_bounds(width, height, x, y);
    if x > 0 {
        lemma_grid_index_bounds(width, height, x - 1, y);
    }
    if x + 1 < width {
        lemma_grid_index_bounds(width, height, x + 1, y);
    }
    if y > 0 {
        lemma_grid_index_bounds(width, height, x, y - 1);
    }
    if y + 1 < height {
        lemma_grid_index_bounds(width, height, x, y + 1);
    }
    let c0 = counts.update(e, (counts[e] - 4) as u32);
    lemma_grid_sum_update(counts, e, (counts[e] - 4) as u32);
    let c1 = if x > 0 {
        lemma_grid_sum_update(c0, e - 1, (c0[e - 1] + 1) as u32);
        lemma_grid_sum_element(c0, e - 1);
        c0.update(e - 1, (c0[e - 1] + 1) as u32)
    } else {
        c0
    };
    let c2 = if x + 1 < width {
        lemma_grid_sum_update(c1, e + 1, (c1[e + 1] + 1) as u32);
        lemma_grid_sum_element(c1, e + 1);
        c1.update(e + 1, (c1[e + 1] + 1) as u32)
    } else {
        c1
    };
    let c3 = if y > 0 {
        lemma_grid_sum_update(c2, e - width, (c2[e - width] + 1) as u32);
        lemma_grid_sum_element(c2, e - width);
        c2.update(e - width, (c2[e - width] + 1) as u32)
    } else {
        c2
    };
    let c4 = if y + 1 < height {
        lemma_grid_sum_update(c3, e + width, (c3[e + width] + 1) as u32);
        lemma_grid_sum_element(c3, e + width);
        c3.update(e + width, (c3[e + width] + 1) as u32)
    } else {
        c3
    };
    assert(apply_topple(counts, width, height, x, y) == c4);
}

/// In a generation where exactly one cell exceeds the threshold, the
/// synchronous step is exactly that single topple. Together with
/// `lemma_topple_mass` this pins the step's mass balance: conserved when
/// the toppling cell is interior, strictly lost at the boundary.
pub proof fn lemma_single_over_step_is_topple(
    counts: Seq<u32>,
    width: int,
    height: int,
    x: int,
    y: int,
)
    requires
        1 <= width,
        1 <= height,
        counts.len() == width * height,
        in_grid(width, height, x, y),
        over_threshold(counts, grid_index(width, x, y)),
        forall|i: int|
            0 <= i < counts.len() && i != grid_index(width, x, y) ==> #[trigger] counts[i] <= 3,
        grid_sum(counts) <= u32::MAX,
    ensures
        forall|x2: int, y2: int|
            #![trigger grid_index(width, x2, y2)]
            in_grid(width, height, x2, y2) ==> cell_after_step(counts, width, height, x2, y2)
                == apply_topple(counts, width, height, x, y)[grid_index(width, x2, y2)] as int,
{
    let e = grid_index(width, x, y);
    lemma_grid_index_bounds(width, height, x, y);
    let s1 = Set::empty().insert(e);
    assert forall|x2: int, y2: int|
        #![trigger grid_index(width, x2, y2)]
        in_grid(width, height, x2, y2) implies cell_after_step(counts, width, height, x2, y2)
        == apply_topple(counts, width, height, x, y)[grid_index(width, x2, y2)] as int by {
        lemma_grid_index_bounds(width, height, x2, y2);
        assert((y - 1) * width == y * width - width && (y + 1) * width == y * width + width)
            by (nonlinear_arith);
        if x > 0 {
            lemma_grid_index_bounds(width, height, x - 1, y);
            lemma_grid_sum_pair(counts, e, e - 1);
        }
        if x + 1 < width {
            lemma_grid_index_bounds(width, height, x + 1, y);
            lemma_grid_sum_pair(counts, e, e + 1);
        }
        if y > 0 {
            lemma_grid_index_bounds(width, height, x, y - 1);
            lemma_grid_sum_pair(counts, e, e - width);
        }
        if y + 1 < height {
            lemma_grid_index_bounds(width, height, x, y + 1);
            lemma_grid_sum_pair(counts, e, e + width);
        }
        lemma_apply_topple_pointwise(counts, width, height, x, y, x2, y2);
        lemma_delta_empty(counts, width, height, x2, y2);
        lemma_delta_insert(counts, width, height, Set::empty(), x, y, x2, y2);
        lemma_delta_covering(counts, width, height, s1, x2, y2);
    }
}

/// Stability is a fixed point: on a grid where no cell exceeds the
/// threshold, a synchronous generation changes no count. Together with the
/// engine's step contract this says that once the work queue runs dry,
/// stepping again leaves every count and the generation counter unchanged.
pub proof fn lemma_stable_grid_fixed(snap: Seq<u32>, width: int, height: int, x: int, y: int)
    requires
        snap.len() == width * height,
        in_grid(width, height, x, y),
        forall|i: int| 0 <= i < snap.len() ==> #[trigger] snap[i] <= 3,
    ensures
        cell_after_step(snap, width, height, x, y) == snap[grid_index(width, x, y)],
{
    lemma_grid_index_bounds(width, height, x, y);
    if x > 0 {
        lemma_grid_index_bounds(width, height, x - 1, y);
    }
    if x + 1 < width {
        lemma_grid_index_bounds(width, height, x + 1, y);
    }
    if y > 0 {
        lemma_grid_index_bounds(width, height, x, y - 1);
    }
    if y + 1 < height {
        lemma_grid_index_bounds(width, height, x, y + 1);
    }
}

} // verus!
