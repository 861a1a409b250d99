//! The discrete line a point-and-drag gesture rasterizes: an octant-aware
//! integer algorithm that walks the axis of greatest extent one cell at a
//! time and lets an accumulated error term decide when the minor axis
//! steps. The path is connected (consecutive cells are 8-neighbors),
//! visits no cell twice, and includes both endpoints.

use vstd::prelude::*;

use crate::model::count_if;

verus! {

pub open spec fn int_abs(v: int) -> int {
    if v < 0 {
        -v
    } else {
        v
    }
}

/// Number of cells on the line: one per driving-axis position.
pub open spec fn line_span(x1: int, y1: int, x2: int, y2: int) -> int {
    if int_abs(y2 - y1) <= int_abs(x2 - x1) {
        int_abs(x2 - x1) + 1
    } else {
        int_abs(y2 - y1) + 1
    }
}

/// Direction of the minor axis: up when the signs of the two deltas
/// agree, down otherwise.
pub open spec fn line_step_sign(dx: int, dy: int) -> int {
    if (dx < 0 && dy < 0) || (dx > 0 && dy > 0) {
        1
    } else {
        -1
    }
}

/// The `(driving, minor)` pairs visited after the current one. Each step
/// advances the driving coordinate by one; the minor coordinate holds
/// while the error term is on its hold side and otherwise moves one step.
pub open spec fn bres_rest(
    d: int,
    m: int,
    de: int,
    dd: int,
    dm: int,
    err: int,
    ms: int,
    hold_on_zero: bool,
) -> Seq<(int, int)>
    decreases de - d,
{
    if d >= de {
        Seq::empty()
    } else if err < 0 || (hold_on_zero && err == 0) {
        seq![(d + 1, m)] + bres_rest(d + 1, m, de, dd, dm, err + 2 * dm, ms, hold_on_zero)
    } else {
        seq![(d + 1, m + ms)] + bres_rest(
            d + 1,
            m + ms,
            de,
            dd,
            dm,
            err + 2 * (dm - dd),
            ms,
            hold_on_zero,
        )
    }
}

/// The full `(driving, minor)` path from `(sd, sm)`, first point included.
pub open spec fn dm_path(sd: int, sm: int, de: int, dd: int, dm: int, ms: int, hold_on_zero: bool) -> Seq<
    (int, int),
> {
    seq![(sd, sm)] + bres_rest(sd, sm, de, dd, dm, 2 * dm - dd, ms, hold_on_zero)
}

/// Swaps the two coordinates of every pair: turns a `(y, x)` path of a
/// y-dominant line into cell coordinates.
pub open spec fn swap_pairs(path: Seq<(int, int)>) -> Seq<(int, int)> {
    Seq::new(path.len(), |k: int| (path[k].1, path[k].0))
}

/// The cells the rasterizer visits from `(x1, y1)` to `(x2, y2)`, in
/// drawing order (from the endpoint with the smaller driving coordinate),
/// both endpoints included.
pub open spec fn line_path(x1: int, y1: int, x2: int, y2: int) -> Seq<(int, int)> {
    let dx = x2 - x1;
    let dy = y2 - y1;
    let dx1 = int_abs(dx);
    let dy1 = int_abs(dy);
    let ms = line_step_sign(dx, dy);
    if dy1 <= dx1 {
        if dx >= 0 {
            dm_path(x1, y1, x2, dx1, dy1, ms, false)
        } else {
            dm_path(x2, y2, x1, dx1, dy1, ms, false)
        }
    } else {
        if dy >= 0 {
            swap_pairs(dm_path(y1, x1, y2, dy1, dx1, ms, true))
        } else {
            swap_pairs(dm_path(y2, x2, y1, dy1, dx1, ms, true))
        }
    }
}

/// A `(driving, minor)` pair as a cell: `(x, y)` when the driving axis is
/// x, `(minor, driving)` when it is y.
pub open spec fn cells_of(path: Seq<(int, int)>, swap_axes: bool) -> Seq<(int, int)> {
    if swap_axes {
        swap_pairs(path)
    } else {
        path
    }
}

/// Extending a `(driving, minor)` path extends its cell path by the
/// corresponding cell.
pub proof fn lemma_cells_of_push(path: Seq<(int, int)>, p: (int, int), swap_axes: bool)
    ensures
        cells_of(path.push(p), swap_axes) == cells_of(path, swap_axes).push(
            if swap_axes {
                (p.1, p.0)
            } else {
                p
            },
        ),
{
    if swap_axes {
        assert(swap_pairs(path.push(p)) =~= swap_pairs(path).push((p.1, p.0)));
    }
}

/// How many of the path's entries are the cell `(x, y)`.
pub open spec fn path_count(path: Seq<(int, int)>, x: int, y: int) -> int
    decreases path.len(),
{
    if path.len() == 0 {
        0
    } else {
        path_count(path.drop_last(), x, y) + count_if(path.last() == (x, y))
    }
}

/// Drawing one more cell raises exactly that cell's visit count.
pub proof fn lemma_path_count_push(path: Seq<(int, int)>, p: (int, int), x: int, y: int)
    ensures
        path_count(path.push(p), x, y) == path_count(path, x, y) + count_if(p == (x, y)),
{
    assert(path.push(p).drop_last() =~= path);
}

/// On a path without repeated cells, every cell is visited once or never:
/// once exactly when it occurs on the path.
pub proof fn lemma_path_count_occurrence(path: Seq<(int, int)>, x: int, y: int)
    requires
        forall|j: int, k: int| 0 <= j < k < path.len() ==> path[j] != path[k],
    ensures
        path_count(path, x, y) == count_if(
            exists|k: int| 0 <= k < path.len() && path[k] == (x, y),
        ),
    decreases path.len(),
{
    if path.len() > 0 {
        let prefix = path.drop_last();
        lemma_path_count_occurrence(prefix, x, y);
        if path.last() == (x, y) {
            assert(!exists|k: int| 0 <= k < prefix.len() && prefix[k] == (x, y)) by {
                if exists|k: int| 0 <= k < prefix.len() && prefix[k] == (x, y) {
                    let k = choose|k: int| 0 <= k < prefix.len() && prefix[k] == (x, y);
                    assert(path[k] == path[path.len() - 1]);
                }
            }
            assert(path[path.len() - 1] == (x, y));
        } else {
            if exists|k: int| 0 <= k < path.len() && path[k] == (x, y) {
                let k = choose|k: int| 0 <= k < path.len() && path[k] == (x, y);
                assert(prefix[k] == (x, y));
            }
        }
    }
}

} // verus!
