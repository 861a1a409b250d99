//! The sandpile engine: a grid of grain counts plus an active-cell work
//! queue, advanced one synchronous generation at a time.
//!
//! `inner_field` holds the current counts, `old_field` the snapshot frozen
//! for the duration of a step. `job_queue` lists the cells that may need
//! toppling in the next generation; `old_job_queue` is the queue being
//! drained during a step and is empty between steps. The queue is an
//! over-approximation: a cell is enqueued by any write that could have
//! pushed it over the threshold, and stale entries are filtered out at
//! drain time by re-reading the snapshot.

use vstd::prelude::*;

use crate::add_assign_signed::AddAssignSigned;
use crate::line::{
    bres_rest, cells_of, dm_path, int_abs, lemma_cells_of_push, lemma_path_count_occurrence,
    lemma_path_count_push, line_path, line_span, line_step_sign, path_count,
};
use crate::model::{
    apply_topple, cell_after_step, cell_delta_from, grid_index, grid_sum, in_grid,
    in_bounds_neighbor_count, lemma_apply_topple_pointwise, lemma_delta_covering,
    lemma_delta_insert, lemma_grid_index_bounds, lemma_grid_index_injective,
    lemma_grid_sum_element, lemma_grid_sum_nonneg, lemma_grid_sum_pair, lemma_grid_sum_push,
    lemma_grid_sum_update, lemma_index_to_coords, lemma_stable_grid_fixed, over_threshold,
    scanned_over_set, topple_delta, topples_in,
};

verus! {

/// A sandpile grid with its double-buffered counts and work queues.
pub struct Field {
    pub height: usize,
    pub width: usize,
    pub inner_field: Vec<u32>,
    pub old_field: Vec<u32>,
    pub job_queue: Vec<(usize, usize, usize)>,
    pub old_job_queue: Vec<(usize, usize, usize)>,
    pub iteration: usize,
}

impl Field {
    /// A queue entry carries in-bounds coordinates and their row-major index.
    pub open spec fn entry_ok(self, e: (usize, usize, usize)) -> bool {
        &&& in_grid(self.width as int, self.height as int, e.1 as int, e.2 as int)
        &&& e.0 == grid_index(self.width as int, e.1 as int, e.2 as int)
    }

    pub open spec fn entries_ok(self, q: Seq<(usize, usize, usize)>) -> bool {
        forall|k: int| 0 <= k < q.len() ==> self.entry_ok(#[trigger] q[k])
    }

    /// No two queue entries name the same cell.
    pub open spec fn queue_distinct(q: Seq<(usize, usize, usize)>) -> bool {
        forall|j: int, k: int| 0 <= j < k < q.len() ==> (#[trigger] q[j]).0 != (#[trigger] q[k]).0
    }

    /// Whether some queue entry names the cell with row-major index `i`.
    pub open spec fn queue_has_index(q: Seq<(usize, usize, usize)>, i: int) -> bool {
        exists|k: int| 0 <= k < q.len() && (#[trigger] q[k]).0 == i
    }

    /// Whether some entry at position `from` or later names index `i`.
    pub open spec fn queue_has_index_from(q: Seq<(usize, usize, usize)>, from: int, i: int) -> bool {
        exists|k: int| from <= k < q.len() && (#[trigger] q[k]).0 == i
    }

    /// The set of cell indices named by the first `n` entries of `q`.
    pub open spec fn drained_prefix_set(q: Seq<(usize, usize, usize)>, n: int) -> Set<int> {
        Set::new(|i: int| exists|k: int| 0 <= k < n && (#[trigger] q[k]).0 == i)
    }

    /// Dimensions are positive, both buffers span the grid, and the total
    /// grain count fits a `u32`, so no single count can overflow.
    pub open spec fn dims_ok(self) -> bool {
        &&& 1 <= self.width
        &&& 1 <= self.height
        &&& self.inner_field.len() == self.width * self.height
        &&& self.old_field.len() == self.width * self.height
        &&& grid_sum(self.inner_field@) <= u32::MAX
    }

    /// The pending queue holds valid, pairwise-distinct entries and the
    /// drained queue is empty between steps.
    pub open spec fn queue_ok(self) -> bool {
        &&& self.entries_ok(self.job_queue@)
        &&& Self::queue_distinct(self.job_queue@)
        &&& self.old_job_queue@.len() == 0
    }

    /// Every overloaded cell is queued: no cell that needs toppling is
    /// ever missed.
    pub open spec fn active_ok(self) -> bool {
        forall|i: int|
            0 <= i < self.inner_field@.len() && #[trigger] self.inner_field@[i] > 3
                ==> Self::queue_has_index(self.job_queue@, i)
    }

    pub open spec fn wf(self) -> bool {
        &&& self.dims_ok()
        &&& self.queue_ok()
        &&& self.active_ok()
    }

    /// Creates an all-zero grid with empty queues and generation counter 0.
    pub fn new(width: usize, height: usize) -> (f: Field)
        requires
            1 <= width,
            1 <= height,
            width * height <= usize::MAX,
        ensures
            f.wf(),
            f.width == width,
            f.height == height,
            forall|i: int| 0 <= i < f.inner_field@.len() ==> #[trigger] f.inner_field@[i] == 0,
            f.old_field@ == f.inner_field@,
            f.job_queue@.len() == 0,
            f.old_job_queue@.len() == 0,
            f.iteration == 0,
            grid_sum(f.inner_field@) == 0,
    {
        let n = width * height;
        let inner_field = zero_counts(n);
        let old_field = zero_counts(n);
        proof {
            assert(inner_field@ =~= old_field@);
        }
        Field {
            width,
            height,
            inner_field,
            old_field,
            job_queue: Vec::new(),
            old_job_queue: Vec::new(),
            iteration: 0,
        }
    }

    /// Row-major index of the in-bounds cell `(x, y)`.
    pub fn index(&self, x: usize, y: usize) -> (i: usize)
        requires
            self.dims_ok(),
            x < self.width,
            y < self.height,
        ensures
            i == grid_index(self.width as int, x as int, y as int),
            i < self.inner_field@.len(),
    {
        proof {
            lemma_grid_index_bounds(self.width as int, self.height as int, x as int, y as int);
        }
        y * self.width + x
    }

    /// Reads the current count of the in-bounds cell `(x, y)`.
    pub fn get(&self, x: usize, y: usize) -> (count: u32)
        requires
            self.dims_ok(),
            x < self.width,
            y < self.height,
        ensures
            count == self.inner_field@[grid_index(self.width as int, x as int, y as int)],
    {
        let i = self.index(x, y);
        self.inner_field[i]
    }

    /// Returns a mutable handle to the count of cell `(x, y)` and, as a
    /// side effect, unconditionally marks the cell as pending work,
    /// whatever the caller writes through the handle. This deliberate
    /// over-approximation guarantees that an overloaded cell is never
    /// missed; the drain step filters out entries that turn out not to
    /// need processing.
    pub fn get_mut(&mut self, x: usize, y: usize) -> (cell: &mut u32)
        requires
            old(self).dims_ok(),
            old(self).queue_ok(),
            x < old(self).width,
            y < old(self).height,
        ensures
            *cell == old(self).inner_field@[grid_index(
                old(self).width as int,
                x as int,
                y as int,
            )],
            final(self).inner_field@ == old(self).inner_field@.update(
                grid_index(old(self).width as int, x as int, y as int),
                *final(cell),
            ),
            final(self).width == old(self).width,
            final(self).height == old(self).height,
            final(self).old_field@ == old(self).old_field@,
            final(self).old_job_queue@ == old(self).old_job_queue@,
            final(self).iteration == old(self).iteration,
            final(self).entries_ok(final(self).job_queue@),
            Field::queue_distinct(final(self).job_queue@),
            forall|i: int|
                Field::queue_has_index(final(self).job_queue@, i)
                    <==> Field::queue_has_index(old(self).job_queue@, i) || i == grid_index(
                    old(self).width as int,
                    x as int,
                    y as int,
                ),
            old(self).active_ok() ==> final(self).active_ok(),
    {
        let index = self.index(x, y);
        let ghost qb = self.job_queue@;
        push_job(&mut self.job_queue, index, x, y);
        proof {
            let q1 = self.job_queue@;
            assert forall|k: int| 0 <= k < q1.len() implies self.entry_ok(#[trigger] q1[k]) by {
                if Field::queue_has_index(qb, index as int) {
                    assert(q1[k] == qb[k]);
                } else if k < qb.len() {
                    assert(q1[k] == qb[k]);
                } else {
                    assert(q1[k] == (index, x, y));
                }
            }
        }
        &mut self.inner_field[index]
    }

    /// Applies the signed delta `amount` to the count at `index`, which
    /// must be the row-major index of the in-bounds cell `(x, y)`, and
    /// queues the cell when its new count exceeds the threshold. The
    /// checked signed addition can neither drop a count below zero nor
    /// wrap around.
    pub fn add_to(&mut self, index: usize, x: usize, y: usize, amount: i64)
        requires
            old(self).dims_ok(),
            old(self).entries_ok(old(self).job_queue@),
            Field::queue_distinct(old(self).job_queue@),
            in_grid(old(self).width as int, old(self).height as int, x as int, y as int),
            index == grid_index(old(self).width as int, x as int, y as int),
            0 <= old(self).inner_field@[index as int] + amount,
            grid_sum(old(self).inner_field@) + amount <= u32::MAX,
        ensures
            final(self).inner_field@ == old(self).inner_field@.update(
                index as int,
                ((old(self).inner_field@[index as int] + amount) as u32),
            ),
            grid_sum(final(self).inner_field@) == grid_sum(old(self).inner_field@) + amount,
            final(self).width == old(self).width,
            final(self).height == old(self).height,
            final(self).old_field@ == old(self).old_field@,
            final(self).old_job_queue@ == old(self).old_job_queue@,
            final(self).iteration == old(self).iteration,
            final(self).entries_ok(final(self).job_queue@),
            Field::queue_distinct(final(self).job_queue@),
            final(self).inner_field@[index as int] > 3 && !Field::queue_has_index(
                old(self).job_queue@,
                index as int,
            ) ==> final(self).job_queue@ == old(self).job_queue@.push((index, x, y)),
            !(final(self).inner_field@[index as int] > 3) || Field::queue_has_index(
                old(self).job_queue@,
                index as int,
            ) ==> final(self).job_queue@ == old(self).job_queue@,
            forall|i: int|
                Field::queue_has_index(final(self).job_queue@, i)
                    <==> Field::queue_has_index(old(self).job_queue@, i) || (final(self).inner_field@[index as int] > 3 && i == index as int),
    {
        proof {
            lemma_grid_index_bounds(
                old(self).width as int,
                old(self).height as int,
                x as int,
                y as int,
            );
            lemma_grid_sum_element(self.inner_field@, index as int);
            lemma_grid_sum_nonneg(self.inner_field@);
        }
        let mut v: u32 = self.inner_field[index];
        v.add_assign_signed(amount);
        self.inner_field[index] = v;
        proof {
            lemma_grid_sum_update(old(self).inner_field@, index as int, v);
        }
        let ghost qb = self.job_queue@;
        if v > 3 {
            push_job(&mut self.job_queue, index, x, y);
        }
        proof {
            let q1 = self.job_queue@;
            assert forall|k: int| 0 <= k < q1.len() implies self.entry_ok(#[trigger] q1[k]) by {
                if k < qb.len() {
                    assert(q1[k] == qb[k]);
                } else {
                    assert(q1[k] == (index, x, y));
                }
            }
        }
    }

    /// Injects a packet of 40 grains into the in-bounds cell `(x, y)`,
    /// guaranteeing it starts above the threshold, and queues it.
    pub fn put_pixel(&mut self, x: usize, y: usize)
        requires
            old(self).wf(),
            x < old(self).width,
            y < old(self).height,
            grid_sum(old(self).inner_field@) + 40 <= u32::MAX,
        ensures
            final(self).wf(),
            final(self).inner_field@ == old(self).inner_field@.update(
                grid_index(old(self).width as int, x as int, y as int),
                ((old(self).inner_field@[grid_index(old(self).width as int, x as int, y as int)]
                    + 40) as u32),
            ),
            grid_sum(final(self).inner_field@) == grid_sum(old(self).inner_field@) + 40,
            final(self).width == old(self).width,
            final(self).height == old(self).height,
            final(self).old_field@ == old(self).old_field@,
            final(self).old_job_queue@ == old(self).old_job_queue@,
            final(self).iteration == old(self).iteration,
            Field::queue_has_index(
                final(self).job_queue@,
                grid_index(old(self).width as int, x as int, y as int),
            ),
            forall|i: int|
                Field::queue_has_index(final(self).job_queue@, i)
                    <==> Field::queue_has_index(old(self).job_queue@, i) || i == grid_index(
                    old(self).width as int,
                    x as int,
                    y as int,
                ),
    {
        let index = self.index(x, y);
        proof {
            lemma_grid_sum_element(self.inner_field@, index as int);
        }
        self.add_to(index, x, y, 40);
        proof {
            let gi = index as int;
            assert forall|i: int|
                0 <= i < self.inner_field@.len() && #[trigger] self.inner_field@[i] > 3
                    implies Field::queue_has_index(self.job_queue@, i) by {
                if i != gi {
                    assert(self.inner_field@[i] == old(self).inner_field@[i]);
                }
            }
        }
    }

    /// Scans the whole grid and queues every cell currently over the
    /// threshold. This restores the active-cell invariant after counts
    /// were written directly, for example after restoring a snapshot.
    pub fn _fill_job_queue(&mut self)
        requires
            old(self).dims_ok(),
            old(self).queue_ok(),
        ensures
            final(self).wf(),
            final(self).inner_field@ == old(self).inner_field@,
            final(self).old_field@ == old(self).old_field@,
            final(self).width == old(self).width,
            final(self).height == old(self).height,
            final(self).old_job_queue@ == old(self).old_job_queue@,
            final(self).iteration == old(self).iteration,
            forall|i: int|
                Field::queue_has_index(final(self).job_queue@, i)
                    <==> Field::queue_has_index(old(self).job_queue@, i) || (0 <= i < final(self).inner_field@.len() && final(self).inner_field@[i] > 3),
    {
        let ghost w0 = self.width as int;
        let ghost h0 = self.height as int;
        let ghost q0 = self.job_queue@;
        let mut index: usize = 0;
        let mut y: usize = 0;
        while y < self.height
            invariant
                self.width == old(self).width,
                self.height == old(self).height,
                self.inner_field@ == old(self).inner_field@,
                self.old_field@ == old(self).old_field@,
                self.old_job_queue@ == old(self).old_job_queue@,
                self.iteration == old(self).iteration,
                self.dims_ok(),
                self.entries_ok(self.job_queue@),
                Field::queue_distinct(self.job_queue@),
                y <= self.height,
                index == y * w0,
                w0 == self.width as int,
                h0 == self.height as int,
                q0 == old(self).job_queue@,
                forall|i: int|
                    #![trigger Field::queue_has_index(self.job_queue@, i)]
                    Field::queue_has_index(self.job_queue@, i) <==> Field::queue_has_index(q0, i)
                        || (0 <= i < index && self.inner_field@[i] > 3),
            decreases self.height - y,
        {
            let mut x: usize = 0;
            proof {
                assert((y + 1) * w0 <= h0 * w0 && y * w0 + w0 == (y + 1) * w0) by (nonlinear_arith)
                    requires
                        y as int + 1 <= h0,
                        w0 >= 0,
                ;
                assert(w0 * h0 == h0 * w0) by (nonlinear_arith);
            }
            while x < self.width
                invariant
                    self.width == old(self).width,
                    self.height == old(self).height,
                    self.inner_field@ == old(self).inner_field@,
                    self.old_field@ == old(self).old_field@,
                    self.old_job_queue@ == old(self).old_job_queue@,
                    self.iteration == old(self).iteration,
                    self.dims_ok(),
                    self.entries_ok(self.job_queue@),
                    Field::queue_distinct(self.job_queue@),
                    y < self.height,
                    x <= self.width,
                    index == y * w0 + x,
                    y * w0 + w0 <= w0 * h0,
                    w0 == self.width as int,
                    h0 == self.height as int,
                    q0 == old(self).job_queue@,
                    forall|i: int|
                        #![trigger Field::queue_has_index(self.job_queue@, i)]
                        Field::queue_has_index(self.job_queue@, i) <==> Field::queue_has_index(
                            q0,
                            i,
                        ) || (0 <= i < index && self.inner_field@[i] > 3),
                decreases self.width - x,
            {
                let previous_count = self.inner_field[index];
                let ghost qb = self.job_queue@;
                if previous_count > 3 {
                    push_job(&mut self.job_queue, index, x, y);
                    proof {
                        let q1 = self.job_queue@;
                        assert forall|k: int| 0 <= k < q1.len() implies self.entry_ok(
                            #[trigger] q1[k],
                        ) by {
                            if k < qb.len() {
                                assert(q1[k] == qb[k]);
                            } else {
                                assert(q1[k] == (index, x, y));
                            }
                        }
                    }
                }
                proof {
                    let q1 = self.job_queue@;
                    assert forall|i: int|
                        #![trigger Field::queue_has_index(q1, i)]
                        Field::queue_has_index(q1, i) <==> (Field::queue_has_index(q0, i) || (0
                            <= i < index + 1 && self.inner_field@[i] > 3)) by {
                        assert(Field::queue_has_index(qb, i) <==> Field::queue_has_index(q0, i)
                            || (0 <= i < index && self.inner_field@[i] > 3));
                        if previous_count > 3 {
                            assert(Field::queue_has_index(q1, i) <==> Field::queue_has_index(
                                qb,
                                i,
                            ) || i == index as int);
                        } else {
                            assert(q1 == qb);
                        }
                    }
                }
                x = x + 1;
                index = index + 1;
            }
            y = y + 1;
        }
        proof {
            assert(y as int * w0 == w0 * h0) by (nonlinear_arith)
                requires
                    y as int == h0,
            ;
        }
    }

    /// Topples the cell `(x, y)` at `index`: removes 4 grains and hands
    /// one to each in-bounds orthogonal neighbor, queueing every written
    /// cell whose new count exceeds the threshold.
    #[verifier::rlimit(100)]
    fn topple_queued_cell(&mut self, index: usize, x: usize, y: usize)
        requires
            old(self).dims_ok(),
            old(self).entries_ok(old(self).job_queue@),
            Field::queue_distinct(old(self).job_queue@),
            in_grid(old(self).width as int, old(self).height as int, x as int, y as int),
            index == grid_index(old(self).width as int, x as int, y as int),
            old(self).inner_field@[index as int] >= 4,
        ensures
            final(self).width == old(self).width,
            final(self).height == old(self).height,
            final(self).old_field@ == old(self).old_field@,
            final(self).old_job_queue@ == old(self).old_job_queue@,
            final(self).iteration == old(self).iteration,
            final(self).inner_field@.len() == old(self).inner_field@.len(),
            forall|g: int|
                #![trigger final(self).inner_field@[g]]
                0 <= g < old(self).inner_field@.len() ==> final(self).inner_field@[g] as int
                    == old(self).inner_field@[g] + topple_delta(
                    old(self).width as int,
                    old(self).height as int,
                    x as int,
                    y as int,
                    g,
                ),
            grid_sum(final(self).inner_field@) == grid_sum(old(self).inner_field@) - 4
                + in_bounds_neighbor_count(
                old(self).width as int,
                old(self).height as int,
                x as int,
                y as int,
            ),
            final(self).entries_ok(final(self).job_queue@),
            Field::queue_distinct(final(self).job_queue@),
            forall|g: int|
                Field::queue_has_index(old(self).job_queue@, g) ==> Field::queue_has_index(
                    final(self).job_queue@,
                    g,
                ),
            forall|g: int|
                #![trigger final(self).inner_field@[g]]
                0 <= g < old(self).inner_field@.len() && final(self).inner_field@[g] > 3
                    && final(self).inner_field@[g] != old(self).inner_field@[g]
                    ==> Field::queue_has_index(
                    final(self).job_queue@,
                    g,
                ),
    {
        let ghost w = old(self).width as int;
        let ghost h = old(self).height as int;
        let ghost e = index as int;
        let ghost inner_pre = self.inner_field@;
        let ghost qa = self.job_queue@;
        proof {
            lemma_grid_index_bounds(w, h, x as int, y as int);
            assert(y as int * w >= 0) by (nonlinear_arith)
                requires
                    y as int >= 0,
                    w >= 0,
            ;
            assert((y as int - 1) * w == y as int * w - w && (y as int + 1) * w == y as int * w
                + w) by (nonlinear_arith);
            if y > 0 {
                assert((y as int - 1) * w >= 0) by (nonlinear_arith)
                    requires
                        y as int >= 1,
                        w >= 0,
                ;
                lemma_grid_index_bounds(w, h, x as int, y as int - 1);
            }
            if y + 1 < self.height {
                lemma_grid_index_bounds(w, h, x as int, y as int + 1);
            }
            if x > 0 {
                lemma_grid_index_bounds(w, h, x as int - 1, y as int);
            }
            if x + 1 < self.width {
                lemma_grid_index_bounds(w, h, x as int + 1, y as int);
            }
            assert(e < self.inner_field@.len());
            // Room for each neighbor to gain one grain.
            if x > 0 {
                lemma_grid_sum_pair(inner_pre, e, e - 1);
            }
            if x + 1 < self.width {
                lemma_grid_sum_pair(inner_pre, e, e + 1);
            }
            if y > 0 {
                lemma_grid_sum_pair(inner_pre, e, e - w);
            }
            if y + 1 < self.height {
                lemma_grid_sum_pair(inner_pre, e, e + w);
            }
        }
        self.add_to(index, x, y, -4);
        let ghost qb = self.job_queue@;
        let ghost vb = self.inner_field@[e];
        if x > 0 {
            self.add_to(index - 1, x - 1, y, 1);
        }
        let ghost qc = self.job_queue@;
        let ghost vc = self.inner_field@[e - 1];
        if x < self.width - 1 {
            self.add_to(index + 1, x + 1, y, 1);
        }
        let ghost qd = self.job_queue@;
        let ghost vd = self.inner_field@[e + 1];
        if y > 0 {
            self.add_to(index - self.width, x, y - 1, 1);
        }
        let ghost qe = self.job_queue@;
        let ghost ve = self.inner_field@[e - w];
        if y < self.height - 1 {
            self.add_to(index + self.width, x, y + 1, 1);
        }
        let ghost qf = self.job_queue@;
        proof {
            assert(self.inner_field@ == apply_topple(inner_pre, w, h, x as int, y as int));
            // Queue membership only ever grows across the five calls.
            assert forall|g: int|
                Field::queue_has_index(qa, g) implies Field::queue_has_index(qf, g) by {
                assert(Field::queue_has_index(qb, g));
                assert(Field::queue_has_index(qc, g));
                assert(Field::queue_has_index(qd, g));
                assert(Field::queue_has_index(qe, g));
            }
            // The per-cell effect of this topple.
            assert forall|g: int|
                #![trigger self.inner_field@[g]]
                0 <= g < inner_pre.len() implies self.inner_field@[g] as int == inner_pre[g]
                + topple_delta(w, h, x as int, y as int, g) by {
                lemma_index_to_coords(w, h, g);
                lemma_apply_topple_pointwise(inner_pre, w, h, x as int, y as int, g % w, g / w);
            }
            // Every written cell that ends up overloaded was queued by the
            // call that wrote it, and queues only grow afterwards.
            assert forall|g: int|
                0 <= g < inner_pre.len() && #[trigger] self.inner_field@[g] > 3
                    && self.inner_field@[g] != inner_pre[g] implies Field::queue_has_index(
                self.job_queue@,
                g,
            ) by {
                if g == e {
                    assert(self.inner_field@[g] == vb);
                    assert(Field::queue_has_index(qb, g));
                    assert(Field::queue_has_index(qf, g));
                } else if x > 0 && g == e - 1 {
                    assert(self.inner_field@[g] == vc);
                    assert(Field::queue_has_index(qc, g));
                    assert(Field::queue_has_index(qf, g));
                } else if x as int + 1 < w && g == e + 1 {
                    assert(self.inner_field@[g] == vd);
                    assert(Field::queue_has_index(qd, g));
                    assert(Field::queue_has_index(qf, g));
                } else if y > 0 && g == e - w {
                    assert(self.inner_field@[g] == ve);
                    assert(Field::queue_has_index(qe, g));
                    assert(Field::queue_has_index(qf, g));
                } else if y as int + 1 < h && g == e + w {
                    assert(Field::queue_has_index(qf, g));
                } else {
                    assert(topple_delta(w, h, x as int, y as int, g) == 0);
                    assert(self.inner_field@[g] == inner_pre[g]);
                }
            }
        }
    }

    /// Runs exactly one synchronous generation: freezes the current counts
    /// as the snapshot, drains the queued cells against that snapshot,
    /// topples every queued cell that exceeds the threshold (skipping
    /// stale entries), re-queues newly overloaded cells for the next
    /// generation, and advances the generation counter when work remains.
    ///
    /// Every count ends up exactly as the simultaneous brute-force rule
    /// `cell_after_step` prescribes: because every overloaded cell is
    /// queued (`active_ok`), draining only the queue is equivalent to
    /// rescanning the whole grid.
    #[verifier::rlimit(100)]
    #[verifier::spinoff_prover]
    pub fn update(&mut self)
        requires
            old(self).wf(),
            old(self).iteration < usize::MAX,
        ensures
            final(self).wf(),
            final(self).width == old(self).width,
            final(self).height == old(self).height,
            final(self).old_field@ == old(self).inner_field@,
            final(self).inner_field@.len() == old(self).inner_field@.len(),
            forall|x: int, y: int|
                #![trigger grid_index(old(self).width as int, x, y)]
                in_grid(old(self).width as int, old(self).height as int, x, y) ==> final(self).inner_field@[grid_index(old(self).width as int, x, y)] as int == cell_after_step(
                    old(self).inner_field@,
                    old(self).width as int,
                    old(self).height as int,
                    x,
                    y,
                ),
            grid_sum(final(self).inner_field@) <= grid_sum(old(self).inner_field@),
            final(self).old_job_queue@.len() == 0,
            (forall|g: int|
                0 <= g < old(self).inner_field@.len() ==> #[trigger] old(self).inner_field@[g]
                    <= 3) ==> final(self).job_queue@.len() == 0 && final(self).inner_field@ == old(self).inner_field@,
            final(self).iteration == if final(self).job_queue@.len() > 0 {
                old(self).iteration + 1
            } else {
                old(self).iteration as int
            },
    {
        let ghost w = old(self).width as int;
        let ghost h = old(self).height as int;
        let ghost snap0 = old(self).inner_field@;
        // Freeze the snapshot: a plain two-buffer copy.
        copy_counts(&mut self.old_field, &self.inner_field);
        // Swap the queues: the pending queue becomes this generation's
        // work, and a fresh pending queue accumulates the next one.
        core::mem::swap(&mut self.job_queue, &mut self.old_job_queue);
        let ghost drained = self.old_job_queue@;
        proof {
            let s0 = Field::drained_prefix_set(drained, 0);
            assert forall|x2: int, y2: int|
                #![trigger grid_index(w, x2, y2)]
                in_grid(w, h, x2, y2) implies self.inner_field@[grid_index(w, x2, y2)] as int
                == snap0[grid_index(w, x2, y2)] + cell_delta_from(snap0, w, h, s0, x2, y2) by {
                lemma_grid_index_bounds(w, h, x2, y2);
                assert(cell_delta_from(snap0, w, h, s0, x2, y2) == 0);
            }
        }
        let mut i: usize = 0;
        while i < self.old_job_queue.len()
            invariant
                self.width == old(self).width,
                self.height == old(self).height,
                self.iteration == old(self).iteration,
                w == self.width as int,
                h == self.height as int,
                1 <= w,
                1 <= h,
                snap0 == old(self).inner_field@,
                snap0.len() == w * h,
                grid_sum(snap0) <= u32::MAX,
                self.inner_field@.len() == w * h,
                self.old_field@ == snap0,
                self.old_job_queue@ == drained,
                self.entries_ok(drained),
                Field::queue_distinct(drained),
                forall|g: int|
                    0 <= g < snap0.len() && #[trigger] snap0[g] > 3 ==> Field::queue_has_index(
                        drained,
                        g,
                    ),
                0 <= i <= drained.len(),
                forall|x2: int, y2: int|
                    #![trigger grid_index(w, x2, y2)]
                    in_grid(w, h, x2, y2) ==> self.inner_field@[grid_index(w, x2, y2)] as int
                        == snap0[grid_index(w, x2, y2)] + cell_delta_from(
                        snap0,
                        w,
                        h,
                        Field::drained_prefix_set(drained, i as int),
                        x2,
                        y2,
                    ),
                grid_sum(self.inner_field@) <= grid_sum(snap0),
                self.entries_ok(self.job_queue@),
                Field::queue_distinct(self.job_queue@),
                forall|g: int|
                    0 <= g < self.inner_field@.len() && #[trigger] self.inner_field@[g] > 3
                        ==> Field::queue_has_index(self.job_queue@, g) || (
                    Field::queue_has_index_from(drained, i as int, g) && snap0[g] > 3),
                (forall|k: int|
                    0 <= k < i ==> !(snap0[(#[trigger] drained[k]).0 as int] > 3))
                    ==> self.job_queue@.len() == 0,
            decreases drained.len() - i,
        {
            let entry = self.old_job_queue[i];
            let index = entry.0;
            let x = entry.1;
            let y = entry.2;
            let ghost e = index as int;
            let ghost s_pre = Field::drained_prefix_set(drained, i as int);
            let ghost s_post = Field::drained_prefix_set(drained, i as int + 1);
            proof {
                assert(self.entry_ok(drained[i as int]));
                lemma_grid_index_bounds(w, h, x as int, y as int);
                assert(s_post =~= s_pre.insert(e)) by {
                    assert forall|g: int| s_post.contains(g) implies s_pre.insert(e).contains(
                        g,
                    ) by {
                        let k = choose|k: int|
                            0 <= k < i as int + 1 && (#[trigger] drained[k]).0 == g;
                        if k < i as int {
                            assert(s_pre.contains(g));
                        }
                    }
                    assert forall|g: int| s_pre.insert(e).contains(g) implies s_post.contains(
                        g,
                    ) by {
                        if g == e {
                            let ki: int = i as int;
                            assert(0 <= ki && ki < ki + 1 && drained[ki].0 == g);
                        } else {
                            let k = choose|k: int| 0 <= k < i as int && (#[trigger] drained[k]).0 == g;
                            assert(0 <= k < i as int + 1 && drained[k].0 == g);
                        }
                    }
                }
            }
            let previous_count = self.old_field[index];
            if previous_count > 3 {
                let ghost inner_pre = self.inner_field@;
                let ghost qa = self.job_queue@;
                proof {
                    assert(!s_pre.contains(e)) by {
                        if s_pre.contains(e) {
                            let k = choose|k: int|
                                0 <= k < i as int && (#[trigger] drained[k]).0 == e;
                            assert(drained[k].0 != drained[i as int].0);
                        }
                    }
                    // The toppling cell holds at least its snapshot count:
                    // it is not in the processed set, so it has only gained.
                    assert(self.inner_field@[e] as int == snap0[e] + cell_delta_from(
                        snap0,
                        w,
                        h,
                        s_pre,
                        x as int,
                        y as int,
                    ));
                    assert(self.inner_field@[e] >= 4);
                }
                self.topple_queued_cell(index, x, y);
                proof {
                    // Restore the per-cell accounting with the cell added
                    // to the processed set.
                    assert forall|x2: int, y2: int|
                        #![trigger grid_index(w, x2, y2)]
                        in_grid(w, h, x2, y2) implies self.inner_field@[grid_index(
                        w,
                        x2,
                        y2,
                    )] as int == snap0[grid_index(w, x2, y2)] + cell_delta_from(
                        snap0,
                        w,
                        h,
                        s_post,
                        x2,
                        y2,
                    ) by {
                        lemma_grid_index_bounds(w, h, x2, y2);
                        lemma_delta_insert(snap0, w, h, s_pre, x as int, y as int, x2, y2);
                        assert(self.inner_field@[grid_index(w, x2, y2)] as int
                            == inner_pre[grid_index(w, x2, y2)] + topple_delta(
                            w,
                            h,
                            x as int,
                            y as int,
                            grid_index(w, x2, y2),
                        ));
                    }
                    // Every overloaded cell is either queued or still ahead
                    // in the drained work.
                    assert forall|g: int|
                        0 <= g < self.inner_field@.len() && #[trigger] self.inner_field@[g] > 3
                            implies Field::queue_has_index(self.job_queue@, g) || (
                        Field::queue_has_index_from(drained, i as int + 1, g) && snap0[g] > 3) by {
                        if self.inner_field@[g] != inner_pre[g] {
                            assert(Field::queue_has_index(self.job_queue@, g));
                        } else {
                            assert((y as int - 1) * w == y as int * w - w && (y as int + 1) * w
                                == y as int * w + w) by (nonlinear_arith);
                            assert(topple_delta(w, h, x as int, y as int, e) == -4);
                            assert(self.inner_field@[e] as int == inner_pre[e] + topple_delta(
                                w,
                                h,
                                x as int,
                                y as int,
                                e,
                            ));
                            assert(g != e);
                            if Field::queue_has_index(qa, g) {
                            } else {
                                assert(Field::queue_has_index_from(drained, i as int, g)
                                    && snap0[g] > 3);
                                let k = choose|k: int|
                                    i as int <= k < drained.len() && (#[trigger] drained[k]).0
                                        == g;
                                assert(k != i as int);
                                assert(Field::queue_has_index_from(drained, i as int + 1, g));
                            }
                        }
                    }
                    assert(grid_sum(self.inner_field@) <= grid_sum(snap0));
                }
            } else {
                proof {
                    // A stale entry: the snapshot no longer exceeds the
                    // threshold, so nothing topples and the processed set
                    // grows by a cell that contributes nothing.
                    assert forall|x2: int, y2: int|
                        #![trigger grid_index(w, x2, y2)]
                        in_grid(w, h, x2, y2) implies self.inner_field@[grid_index(
                        w,
                        x2,
                        y2,
                    )] as int == snap0[grid_index(w, x2, y2)] + cell_delta_from(
                        snap0,
                        w,
                        h,
                        s_post,
                        x2,
                        y2,
                    ) by {
                        assert(!over_threshold(snap0, e));
                        assert(cell_delta_from(snap0, w, h, s_post, x2, y2) == cell_delta_from(
                            snap0,
                            w,
                            h,
                            s_pre,
                            x2,
                            y2,
                        ));
                    }
                    assert forall|g: int|
                        0 <= g < self.inner_field@.len() && #[trigger] self.inner_field@[g] > 3
                            implies Field::queue_has_index(self.job_queue@, g) || (
                        Field::queue_has_index_from(drained, i as int + 1, g) && snap0[g] > 3) by {
                        if !Field::queue_has_index(self.job_queue@, g) {
                            let k = choose|k: int|
                                i as int <= k < drained.len() && (#[trigger] drained[k]).0 == g;
                            assert(k != i as int);
                            assert(Field::queue_has_index_from(drained, i as int + 1, g));
                        }
                    }
                }
            }
            i = i + 1;
        }
        self.old_job_queue.clear();
        proof {
            lemma_update_conclusion(snap0, w, h, drained, self.inner_field@);
            // With no work at all, the new queue is untouched and empty.
            if forall|g: int| 0 <= g < snap0.len() ==> #[trigger] snap0[g] <= 3 {
                assert forall|k: int|
                    0 <= k < drained.len() implies !(snap0[(#[trigger] drained[k]).0 as int]
                    > 3) by {
                    assert(self.entry_ok(drained[k]));
                    lemma_grid_index_bounds(w, h, drained[k].1 as int, drained[k].2 as int);
                }
                assert(self.job_queue@.len() == 0);
            }
        }
        if self.job_queue.len() != 0 {
            self.iteration = self.iteration + 1;
        }
    }

    /// Advances one synchronous generation by rescanning every cell of
    /// the grid instead of draining the queue: the brute-force reference.
    /// It leaves both queues and the generation counter untouched, and it
    /// rewrites every count by exactly the same simultaneous rule
    /// `cell_after_step` that `update` realizes from a well-formed state.
    #[verifier::rlimit(100)]
    pub fn _slow_update(&mut self)
        requires
            old(self).dims_ok(),
        ensures
            final(self).dims_ok(),
            final(self).width == old(self).width,
            final(self).height == old(self).height,
            final(self).job_queue@ == old(self).job_queue@,
            final(self).old_job_queue@ == old(self).old_job_queue@,
            final(self).iteration == old(self).iteration,
            final(self).old_field@ == old(self).inner_field@,
            final(self).inner_field@.len() == old(self).inner_field@.len(),
            forall|x: int, y: int|
                #![trigger grid_index(old(self).width as int, x, y)]
                in_grid(old(self).width as int, old(self).height as int, x, y) ==> final(self).inner_field@[grid_index(old(self).width as int, x, y)] as int == cell_after_step(
                    old(self).inner_field@,
                    old(self).width as int,
                    old(self).height as int,
                    x,
                    y,
                ),
            grid_sum(final(self).inner_field@) <= grid_sum(old(self).inner_field@),
    {
        let ghost w = old(self).width as int;
        let ghost h = old(self).height as int;
        let ghost snap0 = old(self).inner_field@;
        copy_counts(&mut self.old_field, &self.inner_field);
        proof {
            let s0 = scanned_over_set(snap0, 0);
            assert forall|x2: int, y2: int|
                #![trigger grid_index(w, x2, y2)]
                in_grid(w, h, x2, y2) implies self.inner_field@[grid_index(w, x2, y2)] as int
                == snap0[grid_index(w, x2, y2)] + cell_delta_from(snap0, w, h, s0, x2, y2) by {
                lemma_grid_index_bounds(w, h, x2, y2);
                assert(cell_delta_from(snap0, w, h, s0, x2, y2) == 0);
            }
        }
        let mut index: usize = 0;
        let mut y: usize = 0;
        while y < self.height
            invariant
                self.width == old(self).width,
                self.height == old(self).height,
                self.job_queue@ == old(self).job_queue@,
                self.old_job_queue@ == old(self).old_job_queue@,
                self.iteration == old(self).iteration,
                w == self.width as int,
                h == self.height as int,
                1 <= w,
                1 <= h,
                snap0 == old(self).inner_field@,
                snap0.len() == w * h,
                grid_sum(snap0) <= u32::MAX,
                self.inner_field@.len() == w * h,
                self.old_field@ == snap0,
                y <= self.height,
                index == y * w,
                forall|x2: int, y2: int|
                    #![trigger grid_index(w, x2, y2)]
                    in_grid(w, h, x2, y2) ==> self.inner_field@[grid_index(w, x2, y2)] as int
                        == snap0[grid_index(w, x2, y2)] + cell_delta_from(
                        snap0,
                        w,
                        h,
                        scanned_over_set(snap0, index as int),
                        x2,
                        y2,
                    ),
                grid_sum(self.inner_field@) <= grid_sum(snap0),
            decreases self.height - y,
        {
            let mut x: usize = 0;
            proof {
                assert((y + 1) * w <= h * w && y * w + w == (y + 1) * w) by (nonlinear_arith)
                    requires
                        y as int + 1 <= h,
                        w >= 0,
                ;
                assert(w * h == h * w) by (nonlinear_arith);
            }
            while x < self.width
                invariant
                    self.width == old(self).width,
                    self.height == old(self).height,
                    self.job_queue@ == old(self).job_queue@,
                    self.old_job_queue@ == old(self).old_job_queue@,
                    self.iteration == old(self).iteration,
                    w == self.width as int,
                    h == self.height as int,
                    1 <= w,
                    1 <= h,
                    snap0 == old(self).inner_field@,
                    snap0.len() == w * h,
                    grid_sum(snap0) <= u32::MAX,
                    self.inner_field@.len() == w * h,
                    self.old_field@ == snap0,
                    y < self.height,
                    x <= self.width,
                    index == y * w + x,
                    y * w + w <= w * h,
                    forall|x2: int, y2: int|
                        #![trigger grid_index(w, x2, y2)]
                        in_grid(w, h, x2, y2) ==> self.inner_field@[grid_index(w, x2, y2)] as int
                            == snap0[grid_index(w, x2, y2)] + cell_delta_from(
                            snap0,
                            w,
                            h,
                            scanned_over_set(snap0, index as int),
                            x2,
                            y2,
                        ),
                    grid_sum(self.inner_field@) <= grid_sum(snap0),
                decreases self.width - x,
            {
                let previous_count = self.old_field[index];
                let ghost e = index as int;
                let ghost s_pre = scanned_over_set(snap0, e);
                let ghost s_post = scanned_over_set(snap0, e + 1);
                if previous_count > 3 {
                    let ghost inner_pre = self.inner_field@;
                    proof {
                        assert(!s_pre.contains(e));
                        assert(s_post =~= s_pre.insert(e));
                        assert(self.inner_field@[e] as int == snap0[e] + cell_delta_from(
                            snap0,
                            w,
                            h,
                            s_pre,
                            x as int,
                            y as int,
                        ));
                        assert(self.inner_field@[e] >= 4);
                    }
                    let wdt = self.width;
                    let hgt = self.height;
                    topple_counts(&mut self.inner_field, wdt, hgt, index, x, y);
                    proof {
                        lemma_step_accounting(
                            snap0,
                            w,
                            h,
                            s_pre,
                            x as int,
                            y as int,
                            inner_pre,
                            self.inner_field@,
                        );
                        assert(grid_sum(self.inner_field@) <= grid_sum(snap0));
                    }
                } else {
                    proof {
                        assert(s_post =~= s_pre);
                    }
                }
                let n: usize = self.old_field.len();
                proof {
                    assert(index < n);
                }
                x = x + 1;
                index = index + 1;
            }
            y = y + 1;
        }
        proof {
            assert(y as int * w == w * h) by (nonlinear_arith)
                requires
                    y as int == h,
            ;
            let s_full = scanned_over_set(snap0, index as int);
            assert forall|x2: int, y2: int|
                #![trigger grid_index(w, x2, y2)]
                in_grid(w, h, x2, y2) implies self.inner_field@[grid_index(w, x2, y2)] as int
                == cell_after_step(snap0, w, h, x2, y2) by {
                lemma_delta_covering(snap0, w, h, s_full, x2, y2);
            }
        }
    }

    /// Walks the driving axis from `sd` to `de == sd + dd`, injecting a
    /// grain packet at every visited cell; the error term decides when
    /// the minor coordinate, starting at `sm`, takes one of its `dm`
    /// steps. With `swap_axes` the driving axis is y and a visited pair
    /// `(d, m)` is the cell `(m, d)`.
    #[verifier::rlimit(100)]
    fn raster_line(
        &mut self,
        sd: usize,
        sm: usize,
        de: usize,
        dd: i16,
        dm: i16,
        up: bool,
        hold_on_zero: bool,
        swap_axes: bool,
    )
        requires
            old(self).wf(),
            0 <= dm <= dd <= 16383,
            de == sd + dd,
            in_grid(
                old(self).width as int,
                old(self).height as int,
                if swap_axes {
                    sm as int
                } else {
                    sd as int
                },
                if swap_axes {
                    sd as int
                } else {
                    sm as int
                },
            ),
            in_grid(
                old(self).width as int,
                old(self).height as int,
                if swap_axes {
                    sm as int + (if up {
                        1int
                    } else {
                        -1int
                    }) * (dm as int)
                } else {
                    de as int
                },
                if swap_axes {
                    de as int
                } else {
                    sm as int + (if up {
                        1int
                    } else {
                        -1int
                    }) * (dm as int)
                },
            ),
            grid_sum(old(self).inner_field@) + 40 * (dd + 1) <= u32::MAX,
        ensures
            final(self).wf(),
            final(self).width == old(self).width,
            final(self).height == old(self).height,
            final(self).old_field@ == old(self).old_field@,
            final(self).old_job_queue@ == old(self).old_job_queue@,
            final(self).iteration == old(self).iteration,
            forall|ax: int, ay: int|
                #![trigger grid_index(old(self).width as int, ax, ay)]
                in_grid(old(self).width as int, old(self).height as int, ax, ay) ==> final(self).inner_field@[grid_index(old(self).width as int, ax, ay)] as int == old(self).inner_field@[grid_index(old(self).width as int, ax, ay)] + 40 * path_count(
                    cells_of(
                        dm_path(
                            sd as int,
                            sm as int,
                            de as int,
                            dd as int,
                            dm as int,
                            if up {
                                1
                            } else {
                                -1
                            },
                            hold_on_zero,
                        ),
                        swap_axes,
                    ),
                    ax,
                    ay,
                ),
            grid_sum(final(self).inner_field@) == grid_sum(old(self).inner_field@) + 40 * (dd + 1),
            raster_path_ok(
                cells_of(
                    dm_path(
                        sd as int,
                        sm as int,
                        de as int,
                        dd as int,
                        dm as int,
                        if up {
                            1
                        } else {
                            -1
                        },
                        hold_on_zero,
                    ),
                    swap_axes,
                ),
                old(self).width as int,
                old(self).height as int,
                dd as int,
                if swap_axes {
                    (sm as int, sd as int)
                } else {
                    (sd as int, sm as int)
                },
                if swap_axes {
                    (sm as int + (if up {
                        1int
                    } else {
                        -1int
                    }) * (dm as int), de as int)
                } else {
                    (de as int, sm as int + (if up {
                        1int
                    } else {
                        -1int
                    }) * (dm as int))
                },
            ),
    {
        let ghost gw = old(self).width as int;
        let ghost gh = old(self).height as int;
        let ghost dd_g = dd as int;
        let ghost dm_g = dm as int;
        let ghost ms: int = if up {
            1
        } else {
            -1
        };
        let ghost sd0 = sd as int;
        let ghost sm0 = sm as int;
        let ghost de0 = de as int;
        let ghost me0 = sm0 + ms * dm_g;
        let ghost inner0 = self.inner_field@;
        let ghost sum0 = grid_sum(inner0);
        let ghost pdm = dm_path(sd0, sm0, de0, dd_g, dm_g, ms, hold_on_zero);
        let mut d = sd;
        let mut m = sm;
        let mut px: i16 = 2 * dm - dd;
        let cx = if swap_axes {
            m
        } else {
            d
        };
        let cy = if swap_axes {
            d
        } else {
            m
        };
        self.put_pixel(cx, cy);
        let ghost mut drawn: Seq<(int, int)> = seq![(sd0, sm0)];
        let ghost mut j: int = 0;
        proof {
            assert(cells_of(drawn, swap_axes) =~= Seq::empty().push((cx as int, cy as int)));
            assert(2 * dm_g * (d - sd0 + 1) == 2 * dm_g) by (nonlinear_arith)
                requires
                    d as int == sd0,
            ;
            lemma_grid_index_bounds(gw, gh, cx as int, cy as int);
            lemma_grid_sum_element(inner0, grid_index(gw, cx as int, cy as int));
            assert forall|ax: int, ay: int|
                #![trigger grid_index(gw, ax, ay)]
                in_grid(gw, gh, ax, ay) implies self.inner_field@[grid_index(gw, ax, ay)] as int
                == inner0[grid_index(gw, ax, ay)] + 40 * path_count(
                cells_of(drawn, swap_axes),
                ax,
                ay,
            ) by {
                lemma_path_count_push(Seq::empty(), (cx as int, cy as int), ax, ay);
                lemma_grid_index_bounds(gw, gh, ax, ay);
                if grid_index(gw, ax, ay) == grid_index(gw, cx as int, cy as int) {
                    lemma_grid_index_injective(gw, gh, ax, ay, cx as int, cy as int);
                }
            }
        }
        while d < de
            invariant
                self.wf(),
                self.width == old(self).width,
                self.height == old(self).height,
                self.old_field@ == old(self).old_field@,
                self.old_job_queue@ == old(self).old_job_queue@,
                self.iteration == old(self).iteration,
                gw == self.width as int,
                gh == self.height as int,
                dd_g == dd as int,
                dm_g == dm as int,
                0 <= dm_g <= dd_g <= 16383,
                ms == if up {
                    1int
                } else {
                    -1int
                },
                sd0 == sd as int,
                sm0 == sm as int,
                de0 == de as int,
                de0 == sd0 + dd_g,
                me0 == sm0 + ms * dm_g,
                in_grid(
                    gw,
                    gh,
                    if swap_axes {
                        sm0
                    } else {
                        sd0
                    },
                    if swap_axes {
                        sd0
                    } else {
                        sm0
                    },
                ),
                in_grid(
                    gw,
                    gh,
                    if swap_axes {
                        me0
                    } else {
                        de0
                    },
                    if swap_axes {
                        de0
                    } else {
                        me0
                    },
                ),
                inner0 == old(self).inner_field@,
                sum0 == grid_sum(inner0),
                sum0 + 40 * (dd_g + 1) <= u32::MAX,
                pdm == dm_path(sd0, sm0, de0, dd_g, dm_g, ms, hold_on_zero),
                sd <= d <= de,
                0 <= j <= dm_g,
                m as int == sm0 + ms * j,
                px as int == 2 * dm_g * (d - sd0 + 1) - dd_g - 2 * dd_g * j,
                -2 * dd_g <= px as int <= 2 * dm_g,
                drawn.len() == d - sd0 + 1,
                forall|k: int| 0 <= k < drawn.len() ==> (#[trigger] drawn[k]).0 == sd0 + k,
                forall|k: int|
                    0 <= k < drawn.len() ==> 0 <= ms * ((#[trigger] drawn[k]).1 - sm0) <= dm_g,
                drawn[0] == (sd0, sm0),
                drawn[drawn.len() - 1] == (d as int, m as int),
                forall|k: int|
                    0 <= k < drawn.len() - 1 ==> (#[trigger] drawn[k + 1]).0 == drawn[k].0 + 1
                        && int_abs(drawn[k + 1].1 - drawn[k].1) <= 1,
                pdm == drawn + bres_rest(
                    d as int,
                    m as int,
                    de0,
                    dd_g,
                    dm_g,
                    px as int,
                    ms,
                    hold_on_zero,
                ),
                grid_sum(self.inner_field@) == sum0 + 40 * (d - sd0 + 1),
                forall|ax: int, ay: int|
                    #![trigger grid_index(gw, ax, ay)]
                    in_grid(gw, gh, ax, ay) ==> self.inner_field@[grid_index(gw, ax, ay)] as int
                        == inner0[grid_index(gw, ax, ay)] + 40 * path_count(
                        cells_of(drawn, swap_axes),
                        ax,
                        ay,
                    ),
            decreases de - d,
        {
            let ghost drawn_prev = drawn;
            d = d + 1;
            if px < 0 || (hold_on_zero && px == 0) {
                px = px + 2 * dm;
                proof {
                    assert(2 * dm_g * (d - sd0 + 1) == 2 * dm_g * (d - sd0) + 2 * dm_g)
                        by (nonlinear_arith);
                }
            } else {
                proof {
                    assert(j + 1 <= dm_g) by (nonlinear_arith)
                        requires
                            px as int == 2 * dm_g * (d - sd0) - dd_g - 2 * dd_g * j,
                            px as int >= 0,
                            d as int - sd0 <= dd_g,
                            dd_g >= 1,
                            dm_g >= 0,
                            j >= 0,
                    ;
                    assert((up ==> m as int + 1 <= me0) && (!up ==> me0 + 1 <= m as int
                        && m as int >= 1)) by (nonlinear_arith)
                        requires
                            m as int == sm0 + ms * j,
                            0 <= j,
                            j + 1 <= dm_g,
                            me0 == sm0 + ms * dm_g,
                            ms == (if up {
                                1int
                            } else {
                                -1int
                            }),
                            0 <= me0,
                            0 <= sm0,
                    ;
                }
                if up {
                    m = m + 1;
                } else {
                    m = m - 1;
                }
                px = px + 2 * (dm - dd);
                proof {
                    j = j + 1;
                    assert(2 * dm_g * (d - sd0 + 1) == 2 * dm_g * (d - sd0) + 2 * dm_g)
                        by (nonlinear_arith);
                    assert(2 * dd_g * j == 2 * dd_g * (j - 1) + 2 * dd_g) by (nonlinear_arith);
                    assert(ms * j == ms * (j - 1) + ms) by (nonlinear_arith);
                }
            }
            proof {
                assert(0 <= ms * (m as int - sm0) <= dm_g) by (nonlinear_arith)
                    requires
                        m as int == sm0 + ms * j,
                        0 <= j <= dm_g,
                        ms == 1 || ms == -1,
                ;
                assert((ms == 1 ==> sm0 <= m as int <= me0) && (ms == -1 ==> me0 <= m as int
                    <= sm0)) by (nonlinear_arith)
                    requires
                        m as int == sm0 + ms * j,
                        0 <= j <= dm_g,
                        me0 == sm0 + ms * dm_g,
                        ms == 1 || ms == -1,
                ;
            }
            let cx2 = if swap_axes {
                m
            } else {
                d
            };
            let cy2 = if swap_axes {
                d
            } else {
                m
            };
            let ghost inner_prev = self.inner_field@;
            proof {
                lemma_grid_index_bounds(gw, gh, cx2 as int, cy2 as int);
                lemma_grid_sum_element(inner_prev, grid_index(gw, cx2 as int, cy2 as int));
            }
            self.put_pixel(cx2, cy2);
            proof {
                let prev_cells = cells_of(drawn_prev, swap_axes);
                drawn = drawn_prev.push((d as int, m as int));
                lemma_cells_of_push(
                    drawn_prev,
                    (d as int, m as int),
                    swap_axes,
                );
                let newcell = (cx2 as int, cy2 as int);
                assert(cells_of(drawn, swap_axes) == prev_cells.push(newcell));
                assert forall|k: int| 0 <= k < drawn.len() implies 0 <= ms * ((
                #[trigger] drawn[k]).1 - sm0) <= dm_g by {
                    if k < drawn_prev.len() {
                        assert(drawn[k] == drawn_prev[k]);
                    } else {
                        assert(drawn[k] == (d as int, m as int));
                    }
                }
                assert forall|ax: int, ay: int|
                    #![trigger grid_index(gw, ax, ay)]
                    in_grid(gw, gh, ax, ay) implies self.inner_field@[grid_index(
                    gw,
                    ax,
                    ay,
                )] as int == inner0[grid_index(gw, ax, ay)] + 40 * path_count(
                    cells_of(drawn, swap_axes),
                    ax,
                    ay,
                ) by {
                    lemma_path_count_push(prev_cells, newcell, ax, ay);
                    lemma_grid_index_bounds(gw, gh, ax, ay);
                    if grid_index(gw, ax, ay) == grid_index(gw, cx2 as int, cy2 as int) {
                        lemma_grid_index_injective(gw, gh, ax, ay, cx2 as int, cy2 as int);
                    }
                }
                assert(pdm == drawn + bres_rest(
                    d as int,
                    m as int,
                    de0,
                    dd_g,
                    dm_g,
                    px as int,
                    ms,
                    hold_on_zero,
                )) by {
                    assert(drawn_prev + (seq![(d as int, m as int)] + bres_rest(
                        d as int,
                        m as int,
                        de0,
                        dd_g,
                        dm_g,
                        px as int,
                        ms,
                        hold_on_zero,
                    )) =~= drawn + bres_rest(
                        d as int,
                        m as int,
                        de0,
                        dd_g,
                        dm_g,
                        px as int,
                        ms,
                        hold_on_zero,
                    ));
                }
            }
        }
        proof {
            if dd_g == 0 {
                assert(j == dm_g);
            } else {
                assert(j == dm_g) by (nonlinear_arith)
                    requires
                        px as int == 2 * dm_g * (dd_g + 1) - dd_g - 2 * dd_g * j,
                        -2 * dd_g <= px as int <= 2 * dm_g,
                        0 <= j <= dm_g,
                        dd_g >= 1,
                        dm_g >= 0,
                ;
            }
            assert(bres_rest(d as int, m as int, de0, dd_g, dm_g, px as int, ms, hold_on_zero)
                =~= Seq::<(int, int)>::empty());
            assert(pdm =~= drawn);
            let lp = cells_of(pdm, swap_axes);
            assert forall|k: int| 0 <= k < lp.len() implies in_grid(
                gw,
                gh,
                (#[trigger] lp[k]).0,
                lp[k].1,
            ) by {
                assert(drawn[k].0 == sd0 + k && 0 <= ms * (drawn[k].1 - sm0) <= dm_g);
                assert((ms == 1 ==> sm0 <= drawn[k].1 <= me0) && (ms == -1 ==> me0 <= drawn[k].1
                    <= sm0)) by (nonlinear_arith)
                    requires
                        0 <= ms * (drawn[k].1 - sm0) <= dm_g,
                        me0 == sm0 + ms * dm_g,
                        ms == 1 || ms == -1,
                ;
            }
            assert forall|k1: int, k2: int| 0 <= k1 < k2 < lp.len() implies (#[trigger] lp[k1])
                != (#[trigger] lp[k2]) by {
                assert(drawn[k1].0 == sd0 + k1 && drawn[k2].0 == sd0 + k2);
            }
            assert forall|k: int| 0 <= k < lp.len() - 1 implies int_abs(
                (#[trigger] lp[k + 1]).0 - lp[k].0,
            ) <= 1 && int_abs(lp[k + 1].1 - lp[k].1) <= 1 && lp[k + 1] != lp[k] by {
                assert(drawn[k + 1].0 == drawn[k].0 + 1 && int_abs(drawn[k + 1].1 - drawn[k].1)
                    <= 1);
            }
            assert(lp[0] == if swap_axes {
                (sm0, sd0)
            } else {
                (sd0, sm0)
            });
            assert(lp[lp.len() - 1] == if swap_axes {
                (me0, de0)
            } else {
                (de0, me0)
            });
        }
    }

    /// Injects a packet of 40 grains into every cell of the discrete line
    /// from `(x1, y1)` to `(x2, y2)`. The path visits each of its cells
    /// exactly once, both endpoints included, consecutive cells are
    /// 8-neighbors, and every visit happens before any toppling.
    #[verifier::rlimit(100)]
    pub fn put_line(&mut self, x1: usize, y1: usize, x2: usize, y2: usize)
        requires
            old(self).wf(),
            x1 < old(self).width,
            x2 < old(self).width,
            y1 < old(self).height,
            y2 < old(self).height,
            old(self).width <= 16384,
            old(self).height <= 16384,
            grid_sum(old(self).inner_field@) + 40 * line_span(
                x1 as int,
                y1 as int,
                x2 as int,
                y2 as int,
            ) <= u32::MAX,
        ensures
            final(self).wf(),
            final(self).width == old(self).width,
            final(self).height == old(self).height,
            final(self).old_field@ == old(self).old_field@,
            final(self).old_job_queue@ == old(self).old_job_queue@,
            final(self).iteration == old(self).iteration,
            forall|ax: int, ay: int|
                #![trigger grid_index(old(self).width as int, ax, ay)]
                in_grid(old(self).width as int, old(self).height as int, ax, ay) ==> final(self).inner_field@[grid_index(old(self).width as int, ax, ay)] as int
                    == old(self).inner_field@[grid_index(old(self).width as int, ax, ay)] + 40
                    * path_count(
                    line_path(x1 as int, y1 as int, x2 as int, y2 as int),
                    ax,
                    ay,
                ),
            grid_sum(final(self).inner_field@) == grid_sum(old(self).inner_field@) + 40
                * line_span(x1 as int, y1 as int, x2 as int, y2 as int),
            line_path(x1 as int, y1 as int, x2 as int, y2 as int).len() == line_span(
                x1 as int,
                y1 as int,
                x2 as int,
                y2 as int,
            ),
            forall|k: int|
                0 <= k < line_path(x1 as int, y1 as int, x2 as int, y2 as int).len() ==> in_grid(
                    old(self).width as int,
                    old(self).height as int,
                    (#[trigger] line_path(x1 as int, y1 as int, x2 as int, y2 as int)[k]).0,
                    line_path(x1 as int, y1 as int, x2 as int, y2 as int)[k].1,
                ),
            forall|k1: int, k2: int|
                0 <= k1 < k2 < line_path(x1 as int, y1 as int, x2 as int, y2 as int).len()
                    ==> (#[trigger] line_path(x1 as int, y1 as int, x2 as int, y2 as int)[k1]) != (
                #[trigger] line_path(x1 as int, y1 as int, x2 as int, y2 as int)[k2]),
            forall|k: int|
                0 <= k < line_path(x1 as int, y1 as int, x2 as int, y2 as int).len() - 1
                    ==> int_abs(
                    (#[trigger] line_path(x1 as int, y1 as int, x2 as int, y2 as int)[k + 1]).0
                        - line_path(x1 as int, y1 as int, x2 as int, y2 as int)[k].0,
                ) <= 1 && int_abs(
                    line_path(x1 as int, y1 as int, x2 as int, y2 as int)[k + 1].1 - line_path(
                        x1 as int,
                        y1 as int,
                        x2 as int,
                        y2 as int,
                    )[k].1,
                ) <= 1,
            path_count(line_path(x1 as int, y1 as int, x2 as int, y2 as int), x1 as int, y1 as int)
                == 1,
            path_count(line_path(x1 as int, y1 as int, x2 as int, y2 as int), x2 as int, y2 as int)
                == 1,
    {
        let ghost lp = line_path(x1 as int, y1 as int, x2 as int, y2 as int);
        let dx = x2 as i16 - x1 as i16;
        let dy = y2 as i16 - y1 as i16;
        let dx1 = if dx < 0 {
            -dx
        } else {
            dx
        };
        let dy1 = if dy < 0 {
            -dy
        } else {
            dy
        };
        let up = (dx < 0 && dy < 0) || (dx > 0 && dy > 0);
        proof {
            assert(dx as int == x2 as int - x1 as int);
            assert(dy as int == y2 as int - y1 as int);
            assert(dx1 as int == int_abs(x2 as int - x1 as int));
            assert(dy1 as int == int_abs(y2 as int - y1 as int));
        }
        if dy1 <= dx1 {
            if dx >= 0 {
                proof {
                    if dy >= 0 && !up {
                        assert(dx == 0 || dy == 0);
                        assert((dy1 as int) <= (dx1 as int));
                        assert(dy == 0);
                    }
                    assert(y1 as int + (if up {
                        1int
                    } else {
                        -1int
                    }) * (dy1 as int) == y2 as int);
                }
                self.raster_line(x1, y1, x2, dx1, dy1, up, false, false);
            } else {
                proof {
                    if dy >= 0 {
                        assert(!up);
                    } else {
                        assert(up);
                    }
                    assert(y2 as int + (if up {
                        1int
                    } else {
                        -1int
                    }) * (dy1 as int) == y1 as int);
                }
                self.raster_line(x2, y2, x1, dx1, dy1, up, false, false);
            }
        } else {
            if dy >= 0 {
                proof {
                    if dx >= 0 && !up {
                        assert((dx1 as int) < (dy1 as int));
                        assert(dx == 0);
                    }
                    assert(x1 as int + (if up {
                        1int
                    } else {
                        -1int
                    }) * (dx1 as int) == x2 as int);
                }
                self.raster_line(y1, x1, y2, dy1, dx1, up, true, true);
            } else {
                proof {
                    let lms: int = if up {
                        1int
                    } else {
                        -1int
                    };
                    if dx >= 0 {
                        assert(!up);
                        assert(lms * (dx1 as int) == -(dx1 as int)) by (nonlinear_arith)
                            requires
                                lms == -1,
                        ;
                    } else {
                        assert(up);
                        assert(lms * (dx1 as int) == dx1 as int) by (nonlinear_arith)
                            requires
                                lms == 1,
                        ;
                    }
                    assert(x2 as int + lms * (dx1 as int) == x1 as int);
                }
                self.raster_line(y2, x2, y1, dy1, dx1, up, true, true);
            }
        }
        proof {
            assert((if up {
                1int
            } else {
                -1int
            }) == line_step_sign(x2 as int - x1 as int, y2 as int - y1 as int));
            lemma_path_count_occurrence(lp, x1 as int, y1 as int);
            lemma_path_count_occurrence(lp, x2 as int, y2 as int);
            assert(lp[0] == (x1 as int, y1 as int) || lp[0] == (x2 as int, y2 as int));
            assert(lp[lp.len() - 1] == (x1 as int, y1 as int) || lp[lp.len() - 1] == (
                x2 as int,
                y2 as int,
            ));
            assert(lp[0] == (x1 as int, y1 as int) || lp[lp.len() - 1] == (x1 as int, y1 as int));
            assert(lp[0] == (x2 as int, y2 as int) || lp[lp.len() - 1] == (x2 as int, y2 as int));
        }
    }
}

/// The well-formedness a rasterized path guarantees: one cell per
/// driving-axis position, all in-bounds, no cell revisited, consecutive
/// cells 8-adjacent, and the two given endpoints first and last.
pub open spec fn raster_path_ok(
    lp: Seq<(int, int)>,
    w: int,
    h: int,
    dd: int,
    start: (int, int),
    end: (int, int),
) -> bool {
    &&& lp.len() == dd + 1
    &&& forall|k: int| 0 <= k < lp.len() ==> in_grid(w, h, (#[trigger] lp[k]).0, lp[k].1)
    &&& forall|k1: int, k2: int| 0 <= k1 < k2 < lp.len() ==> (#[trigger] lp[k1]) != (#[trigger] lp[k2])
    &&& forall|k: int|
        0 <= k < lp.len() - 1 ==> int_abs((#[trigger] lp[k + 1]).0 - lp[k].0) <= 1 && int_abs(
            lp[k + 1].1 - lp[k].1,
        ) <= 1 && lp[k + 1] != lp[k]
    &&& lp[0] == start
    &&& lp[lp.len() - 1] == end
}

/// Clamping one axis: negative coordinates floor to 0, coordinates at or
/// beyond the extent clamp to `extent - 1`.
pub open spec fn clamp_axis(c: int, extent: int) -> int {
    if c < 0 {
        0
    } else if c >= extent {
        extent - 1
    } else {
        c
    }
}

impl Field {
    /// Clamps a continuous, possibly out-of-range coordinate pair to a
    /// valid cell: negative values floor to 0, values at or beyond the
    /// grid extent clamp to the last column or row. The caller truncates
    /// fractional input toward zero before calling.
    pub fn check_coords(&self, x: i64, y: i64) -> (cell: (usize, usize))
        requires
            self.dims_ok(),
            self.width <= i64::MAX,
            self.height <= i64::MAX,
        ensures
            cell.0 == clamp_axis(x as int, self.width as int),
            cell.1 == clamp_axis(y as int, self.height as int),
            cell.0 < self.width,
            cell.1 < self.height,
    {
        let cx: usize = if x < 0 {
            0
        } else if x >= self.width as i64 {
            self.width - 1
        } else {
            x as usize
        };
        let cy: usize = if y < 0 {
            0
        } else if y >= self.height as i64 {
            self.height - 1
        } else {
            y as usize
        };
        (cx, cy)
    }
}

/// A vector of `n` zero counts.
fn zero_counts(n: usize) -> (v: Vec<u32>)
    ensures
        v@.len() == n,
        forall|i: int| 0 <= i < n ==> #[trigger] v@[i] == 0,
        grid_sum(v@) == 0,
{
    let mut v: Vec<u32> = Vec::new();
    let mut k: usize = 0;
    while k < n
        invariant
            k <= n,
            v@.len() == k,
            forall|i: int| 0 <= i < k ==> #[trigger] v@[i] == 0,
            grid_sum(v@) == 0,
        decreases n - k,
    {
        proof {
            lemma_grid_sum_push(v@, 0);
        }
        v.push(0);
        k = k + 1;
    }
    v
}

/// Equivalence to brute force: from a well-formed state, the cells the
/// incremental drain topples — queued cells whose snapshot count exceeds
/// the threshold — are exactly the cells a full rescan topples, namely
/// every cell over the threshold. This is why `update`, which drains only
/// the queue, and `_slow_update`, which rescans the whole grid, promise
/// the identical per-cell result `cell_after_step`: repeated steps of
/// either engine from equal counts yield equal counts, and they reach
/// quiescence together.
pub proof fn lemma_drain_topples_exactly_the_overloaded(f: Field)
    requires
        f.wf(),
    ensures
        forall|i: int|
            0 <= i < f.inner_field@.len() ==> (topples_in(
                f.inner_field@,
                Field::drained_prefix_set(f.job_queue@, f.job_queue@.len() as int),
                i,
            ) <==> over_threshold(f.inner_field@, i)),
{
    let s = Field::drained_prefix_set(f.job_queue@, f.job_queue@.len() as int);
    assert forall|i: int|
        0 <= i < f.inner_field@.len() implies (topples_in(f.inner_field@, s, i) <==> over_threshold(
        f.inner_field@,
        i,
    )) by {
        if over_threshold(f.inner_field@, i) {
            assert(Field::queue_has_index(f.job_queue@, i));
            let k = choose|k: int|
                0 <= k < f.job_queue@.len() && (#[trigger] f.job_queue@[k]).0 == i;
            assert(0 <= k < f.job_queue@.len() && f.job_queue@[k].0 == i);
            assert(s.contains(i));
        }
    }
}

/// Stability idempotence: once a step leaves the work queue empty, no
/// cell exceeds the threshold, because every overloaded cell is always
/// queued. By the step contract, calling `update` again then leaves every
/// count, the queue, and the generation counter unchanged.
pub proof fn lemma_empty_queue_stable(f: Field)
    requires
        f.wf(),
        f.job_queue@.len() == 0,
    ensures
        forall|i: int| 0 <= i < f.inner_field@.len() ==> #[trigger] f.inner_field@[i] <= 3,
{
    assert forall|i: int| 0 <= i < f.inner_field@.len() implies #[trigger] f.inner_field@[i]
        <= 3 by {
        if f.inner_field@[i] > 3 {
            assert(Field::queue_has_index(f.job_queue@, i));
            let k = choose|k: int| 0 <= k < f.job_queue@.len() && (#[trigger] f.job_queue@[k]).0 == i;
            assert(false);
        }
    }
}

/// Processing one more overloaded cell extends the per-cell accounting:
/// after the topple's pointwise effect, every cell's count reflects the
/// toppling set grown by that cell.
proof fn lemma_step_accounting(
    snap0: Seq<u32>,
    w: int,
    h: int,
    s_pre: Set<int>,
    x: int,
    y: int,
    inner_pre: Seq<u32>,
    inner_post: Seq<u32>,
)
    requires
        1 <= w,
        1 <= h,
        snap0.len() == w * h,
        inner_pre.len() == w * h,
        inner_post.len() == w * h,
        in_grid(w, h, x, y),
        over_threshold(snap0, grid_index(w, x, y)),
        !s_pre.contains(grid_index(w, x, y)),
        forall|x2: int, y2: int|
            #![trigger grid_index(w, x2, y2)]
            in_grid(w, h, x2, y2) ==> inner_pre[grid_index(w, x2, y2)] as int == snap0[grid_index(
                w,
                x2,
                y2,
            )] + cell_delta_from(snap0, w, h, s_pre, x2, y2),
        forall|g: int|
            #![trigger inner_post[g]]
            0 <= g < inner_pre.len() ==> inner_post[g] as int == inner_pre[g] + topple_delta(
                w,
                h,
                x,
                y,
                g,
            ),
    ensures
        forall|x2: int, y2: int|
            #![trigger grid_index(w, x2, y2)]
            in_grid(w, h, x2, y2) ==> inner_post[grid_index(w, x2, y2)] as int == snap0[grid_index(
                w,
                x2,
                y2,
            )] + cell_delta_from(snap0, w, h, s_pre.insert(grid_index(w, x, y)), x2, y2),
{
    assert forall|x2: int, y2: int|
        #![trigger grid_index(w, x2, y2)]
        in_grid(w, h, x2, y2) implies inner_post[grid_index(w, x2, y2)] as int == snap0[grid_index(
        w,
        x2,
        y2,
    )] + cell_delta_from(snap0, w, h, s_pre.insert(grid_index(w, x, y)), x2, y2) by {
        lemma_grid_index_bounds(w, h, x2, y2);
        lemma_delta_insert(snap0, w, h, s_pre, x, y, x2, y2);
        assert(inner_post[grid_index(w, x2, y2)] as int == inner_pre[grid_index(w, x2, y2)]
            + topple_delta(w, h, x, y, grid_index(w, x2, y2)));
    }
}

/// At the end of a drain, every overloaded cell of the snapshot has been
/// processed, so the incremental accounting collapses to the simultaneous
/// rule; and on an already-stable grid the counts are untouched.
proof fn lemma_update_conclusion(
    snap0: Seq<u32>,
    w: int,
    h: int,
    drained: Seq<(usize, usize, usize)>,
    inner1: Seq<u32>,
)
    requires
        1 <= w,
        1 <= h,
        snap0.len() == w * h,
        inner1.len() == w * h,
        forall|g: int|
            0 <= g < snap0.len() && #[trigger] snap0[g] > 3 ==> Field::queue_has_index(drained, g),
        forall|x2: int, y2: int|
            #![trigger grid_index(w, x2, y2)]
            in_grid(w, h, x2, y2) ==> inner1[grid_index(w, x2, y2)] as int == snap0[grid_index(
                w,
                x2,
                y2,
            )] + cell_delta_from(
                snap0,
                w,
                h,
                Field::drained_prefix_set(drained, drained.len() as int),
                x2,
                y2,
            ),
    ensures
        forall|x2: int, y2: int|
            #![trigger grid_index(w, x2, y2)]
            in_grid(w, h, x2, y2) ==> inner1[grid_index(w, x2, y2)] as int == cell_after_step(
                snap0,
                w,
                h,
                x2,
                y2,
            ),
        (forall|g: int| 0 <= g < snap0.len() ==> #[trigger] snap0[g] <= 3) ==> inner1 == snap0,
{
    let s_full = Field::drained_prefix_set(drained, drained.len() as int);
    assert forall|g: int|
        0 <= g < snap0.len() && #[trigger] snap0[g] > 3 implies s_full.contains(g) by {
        assert(Field::queue_has_index(drained, g));
        let k = choose|k: int| 0 <= k < drained.len() && (#[trigger] drained[k]).0 == g;
        assert(0 <= k < drained.len() && drained[k].0 == g);
    }
    assert forall|x2: int, y2: int|
        #![trigger grid_index(w, x2, y2)]
        in_grid(w, h, x2, y2) implies inner1[grid_index(w, x2, y2)] as int == cell_after_step(
        snap0,
        w,
        h,
        x2,
        y2,
    ) by {
        lemma_delta_covering(snap0, w, h, s_full, x2, y2);
    }
    if forall|g: int| 0 <= g < snap0.len() ==> #[trigger] snap0[g] <= 3 {
        assert forall|g: int| 0 <= g < snap0.len() implies inner1[g] == snap0[g] by {
            lemma_index_to_coords(w, h, g);
            lemma_stable_grid_fixed(snap0, w, h, g % w, g / w);
        }
        assert(inner1 =~= snap0);
    }
}

/// Applies one topple directly to a count buffer: the cell at `index`
/// loses 4 grains and each in-bounds neighbor gains 1. Used by the
/// rescanning reference engine, which manages no queue.
#[verifier::rlimit(100)]
fn topple_counts(
    counts: &mut Vec<u32>,
    width: usize,
    height: usize,
    index: usize,
    x: usize,
    y: usize,
)
    requires
        1 <= width,
        1 <= height,
        old(counts)@.len() == width * height,
        grid_sum(old(counts)@) <= u32::MAX,
        in_grid(width as int, height as int, x as int, y as int),
        index == grid_index(width as int, x as int, y as int),
        old(counts)@[index as int] >= 4,
    ensures
        final(counts)@.len() == old(counts)@.len(),
        forall|g: int|
            #![trigger final(counts)@[g]]
            0 <= g < old(counts)@.len() ==> final(counts)@[g] as int == old(counts)@[g]
                + topple_delta(width as int, height as int, x as int, y as int, g),
        grid_sum(final(counts)@) == grid_sum(old(counts)@) - 4 + in_bounds_neighbor_count(
            width as int,
            height as int,
            x as int,
            y as int,
        ),
{
    let ghost w = width as int;
    let ghost h = height as int;
    let ghost e = index as int;
    let ghost c0 = counts@;
    let n = counts.len();
    proof {
        assert(n == counts@.len());
        lemma_grid_index_bounds(w, h, x as int, y as int);
        assert(y as int * w >= 0) by (nonlinear_arith)
            requires
                y as int >= 0,
                w >= 0,
        ;
        assert((y as int - 1) * w == y as int * w - w && (y as int + 1) * w == y as int * w + w)
            by (nonlinear_arith);
        if y > 0 {
            assert((y as int - 1) * w >= 0) by (nonlinear_arith)
                requires
                    y as int >= 1,
                    w >= 0,
            ;
            lemma_grid_index_bounds(w, h, x as int, y as int - 1);
        }
        if y + 1 < height {
            lemma_grid_index_bounds(w, h, x as int, y as int + 1);
        }
        if x > 0 {
            lemma_grid_index_bounds(w, h, x as int - 1, y as int);
        }
        if x + 1 < width {
            lemma_grid_index_bounds(w, h, x as int + 1, y as int);
        }
        assert(e < counts@.len());
        lemma_grid_sum_update(c0, e, (c0[e] - 4) as u32);
    }
    let v0 = counts[index];
    counts[index] = v0 - 4;
    if x > 0 {
        proof {
            lemma_grid_sum_element(counts@, e - 1);
            lemma_grid_sum_update(counts@, e - 1, (counts@[e - 1] + 1) as u32);
        }
        let v = counts[index - 1];
        counts[index - 1] = v + 1;
    }
    if x < width - 1 {
        proof {
            lemma_grid_sum_element(counts@, e + 1);
            lemma_grid_sum_update(counts@, e + 1, (counts@[e + 1] + 1) as u32);
        }
        let v = counts[index + 1];
        counts[index + 1] = v + 1;
    }
    if y > 0 {
        proof {
            lemma_grid_sum_element(counts@, e - w);
            lemma_grid_sum_update(counts@, e - w, (counts@[e - w] + 1) as u32);
        }
        let v = counts[index - width];
        counts[index - width] = v + 1;
    }
    if y < height - 1 {
        proof {
            lemma_grid_sum_element(counts@, e + w);
            lemma_grid_sum_update(counts@, e + w, (counts@[e + w] + 1) as u32);
        }
        let v = counts[index + width];
        counts[index + width] = v + 1;
    }
    proof {
        assert(counts@ == apply_topple(c0, w, h, x as int, y as int));
        assert forall|g: int|
            #![trigger counts@[g]]
            0 <= g < c0.len() implies counts@[g] as int == c0[g] + topple_delta(
            w,
            h,
            x as int,
            y as int,
            g,
        ) by {
            lemma_index_to_coords(w, h, g);
            lemma_apply_topple_pointwise(c0, w, h, x as int, y as int, g % w, g / w);
        }
    }
}

/// Overwrites `dst` with the counts of `src`: the plain two-buffer copy
/// behind the snapshot step.
fn copy_counts(dst: &mut Vec<u32>, src: &Vec<u32>)
    ensures
        final(dst)@ == src@,
{
    dst.clear();
    let mut k: usize = 0;
    while k < src.len()
        invariant
            k <= src.len(),
            dst@.len() == k,
            forall|j: int| 0 <= j < k ==> #[trigger] dst@[j] == src@[j],
        decreases src.len() - k,
    {
        dst.push(src[k]);
        k = k + 1;
    }
    proof {
        assert(dst@ =~= src@);
    }
}

/// Whether some entry of `q` names the cell with row-major index `index`.
fn queue_contains_index(q: &Vec<(usize, usize, usize)>, index: usize) -> (r: bool)
    ensures
        r == Field::queue_has_index(q@, index as int),
{
    let mut k: usize = 0;
    while k < q.len()
        invariant
            k <= q.len(),
            forall|j: int| 0 <= j < k ==> (#[trigger] q@[j]).0 != index,
        decreases q.len() - k,
    {
        if q[k].0 == index {
            return true;
        }
        k = k + 1;
    }
    false
}

/// Appends the entry `(index, x, y)` to the queue unless an entry for the
/// same cell is already present, keeping the entries pairwise distinct.
fn push_job(q: &mut Vec<(usize, usize, usize)>, index: usize, x: usize, y: usize)
    requires
        Field::queue_distinct(old(q)@),
    ensures
        Field::queue_distinct(final(q)@),
        !Field::queue_has_index(old(q)@, index as int) ==> final(q)@ == old(q)@.push(
            (index, x, y),
        ),
        Field::queue_has_index(old(q)@, index as int) ==> final(q)@ == old(q)@,
        forall|i: int|
            Field::queue_has_index(final(q)@, i) <==> Field::queue_has_index(old(q)@, i) || i
                == index as int,
{
    if !queue_contains_index(q, index) {
        let ghost qb = q@;
        q.push((index, x, y));
        proof {
            let q1 = q@;
            assert forall|j: int, k: int| 0 <= j < k < q1.len() implies (#[trigger] q1[j]).0 != (
            #[trigger] q1[k]).0 by {
                if k == q1.len() - 1 {
                    assert(q1[j] == qb[j]);
                } else {
                    assert(q1[j] == qb[j] && q1[k] == qb[k]);
                }
            }
            assert(q1[q1.len() - 1].0 == index);
            assert forall|i: int|
                Field::queue_has_index(q1, i) <==> Field::queue_has_index(qb, i) || i
                    == index as int by {
                if Field::queue_has_index(qb, i) {
                    let k = choose|k: int| 0 <= k < qb.len() && (#[trigger] qb[k]).0 == i;
                    assert(q1[k].0 == i);
                }
                if Field::queue_has_index(q1, i) {
                    let k = choose|k: int| 0 <= k < q1.len() && (#[trigger] q1[k]).0 == i;
                    if k < qb.len() {
                        assert(qb[k].0 == i);
                    }
                }
            }
        }
    }
}

} // verus!
