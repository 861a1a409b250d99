use sandpile::field::Field;

fn total(f: &Field) -> u64 {
    let mut sum: u64 = 0;
    for y in 0..f.height {
        for x in 0..f.width {
            sum += f.get(x, y) as u64;
        }
    }
    sum
}

fn any_over(f: &Field) -> bool {
    for y in 0..f.height {
        for x in 0..f.width {
            if f.get(x, y) > 3 {
                return true;
            }
        }
    }
    false
}

/// Steps the incremental engine until its queue is empty; returns the
/// number of steps taken.
fn run_engine(f: &mut Field, max_steps: usize) -> usize {
    let mut steps = 0;
    while !f.job_queue.is_empty() {
        assert!(steps < max_steps, "engine did not stabilize");
        f.update();
        steps += 1;
    }
    steps
}

/// Runs the brute-force rescanning engine until no cell exceeds the
/// threshold; returns the number of rounds in which a topple happened.
fn run_brute(f: &mut Field, max_rounds: usize) -> usize {
    let mut rounds = 0;
    while any_over(f) {
        assert!(rounds < max_rounds, "reference did not stabilize");
        f._slow_update();
        rounds += 1;
    }
    rounds
}

fn grids_equal(a: &Field, b: &Field) -> bool {
    if a.width != b.width || a.height != b.height {
        return false;
    }
    for y in 0..a.height {
        for x in 0..a.width {
            if a.get(x, y) != b.get(x, y) {
                return false;
            }
        }
    }
    true
}

#[test]
fn new_grid_is_zeroed() {
    let f = Field::new(4, 3);
    assert_eq!(f.width, 4);
    assert_eq!(f.height, 3);
    assert_eq!(f.inner_field.len(), 12);
    assert_eq!(f.old_field.len(), 12);
    for y in 0..3 {
        for x in 0..4 {
            assert_eq!(f.get(x, y), 0);
        }
    }
    assert!(f.job_queue.is_empty());
    assert!(f.old_job_queue.is_empty());
    assert_eq!(f.iteration, 0);
}

#[test]
fn index_is_row_major() {
    let f = Field::new(5, 4);
    assert_eq!(f.index(0, 0), 0);
    assert_eq!(f.index(2, 1), 7);
    assert_eq!(f.index(4, 3), 19);
}

#[test]
fn put_pixel_adds_forty_and_queues() {
    let mut f = Field::new(5, 5);
    f.put_pixel(2, 2);
    assert_eq!(f.get(2, 2), 40);
    assert_eq!(f.job_queue.len(), 1);
    assert_eq!(f.job_queue[0], (12, 2, 2));
    f.put_pixel(2, 2);
    assert_eq!(f.get(2, 2), 80);
    // The queue keeps one entry per cell.
    assert_eq!(f.job_queue.len(), 1);
}

#[test]
fn get_mut_writes_and_queues_unconditionally() {
    let mut f = Field::new(3, 3);
    *f.get_mut(1, 1) = 5;
    assert_eq!(f.get(1, 1), 5);
    assert_eq!(f.job_queue.len(), 1);
    assert_eq!(f.job_queue[0], (4, 1, 1));
    // Even a write below the threshold queues the cell; the step filters
    // it out without toppling anything.
    *f.get_mut(0, 0) = 1;
    assert_eq!(f.job_queue.len(), 2);
    f.update();
    assert_eq!(f.get(1, 1), 1);
    assert_eq!(f.get(0, 0), 1);
    assert_eq!(f.get(0, 1), 1);
    assert_eq!(f.get(1, 0), 1);
    assert_eq!(f.get(2, 1), 1);
    assert_eq!(f.get(1, 2), 1);
}

#[test]
fn add_to_applies_signed_delta() {
    let mut f = Field::new(3, 3);
    let i = f.index(1, 1);
    f.add_to(i, 1, 1, 7);
    assert_eq!(f.get(1, 1), 7);
    assert_eq!(f.job_queue.len(), 1);
    f.add_to(i, 1, 1, -4);
    assert_eq!(f.get(1, 1), 3);
}

#[test]
fn fill_job_queue_finds_overloaded_cells() {
    let mut f = Field {
        width: 3,
        height: 2,
        inner_field: vec![5, 0, 0, 0, 0, 9],
        old_field: vec![0; 6],
        job_queue: Vec::new(),
        old_job_queue: Vec::new(),
        iteration: 0,
    };
    f._fill_job_queue();
    assert_eq!(f.job_queue.len(), 2);
    assert!(f.job_queue.contains(&(0, 0, 0)));
    assert!(f.job_queue.contains(&(5, 2, 1)));
    let steps = run_engine(&mut f, 1000);
    assert!(steps > 0);
    assert!(!any_over(&f));
}

#[test]
fn single_seed_matches_brute_force() {
    // A single packet of 40 grains at the center of an all-zero 5x5 grid.
    let mut fast = Field::new(5, 5);
    fast.put_pixel(2, 2);
    assert_eq!(fast.get(2, 2), 40);
    assert_eq!(fast.job_queue.len(), 1);

    let mut slow = Field::new(5, 5);
    slow.put_pixel(2, 2);
    slow.job_queue.clear();

    let steps = run_engine(&mut fast, 100_000);
    let rounds = run_brute(&mut slow, 100_000);

    assert!(grids_equal(&fast, &slow), "engines disagree on the final grid");
    assert!(!any_over(&fast));
    assert!(steps == rounds || steps + 1 == rounds);
    // The generation counter counts the steps that produced further work.
    assert!(fast.iteration == rounds || fast.iteration + 1 == rounds);
    assert!(fast.iteration > 0);
}

#[test]
fn arbitrary_seed_matches_brute_force() {
    let mut fast = Field::new(6, 4);
    let mut slow = Field::new(6, 4);
    let seeds = [(0usize, 0usize), (5, 0), (3, 2), (3, 2), (0, 3), (2, 1)];
    for &(x, y) in seeds.iter() {
        fast.put_pixel(x, y);
        slow.put_pixel(x, y);
    }
    let i = fast.index(4, 3);
    fast.add_to(i, 4, 3, 7);
    slow.add_to(i, 4, 3, 7);
    slow.job_queue.clear();

    run_engine(&mut fast, 100_000);
    run_brute(&mut slow, 100_000);

    assert!(grids_equal(&fast, &slow), "engines disagree on the final grid");
    assert!(!any_over(&fast));
}

#[test]
fn stability_is_idempotent() {
    let mut f = Field::new(5, 5);
    f.put_pixel(2, 2);
    run_engine(&mut f, 100_000);
    assert!(f.job_queue.is_empty());

    let counts_before: Vec<u32> = f.inner_field.clone();
    let iteration_before = f.iteration;
    f.update();
    f.update();
    assert_eq!(f.inner_field, counts_before);
    assert_eq!(f.iteration, iteration_before);
    assert!(f.job_queue.is_empty());
}

#[test]
fn interior_topple_conserves_mass() {
    let mut f = Field::new(5, 5);
    f.put_pixel(2, 2);
    assert_eq!(total(&f), 40);
    f.update();
    // The toppling cell is interior: 4 grains lost, 4 gained.
    assert_eq!(total(&f), 40);
}

#[test]
fn corner_topple_loses_two_grains() {
    let mut f = Field::new(5, 5);
    f.put_pixel(0, 0);
    assert_eq!(total(&f), 40);
    f.update();
    // A corner cell has only 2 in-bounds neighbors: 2 grains fall off.
    assert_eq!(total(&f), 38);
}

#[test]
fn edge_topple_loses_one_grain() {
    let mut f = Field::new(5, 5);
    f.put_pixel(2, 0);
    assert_eq!(total(&f), 40);
    f.update();
    // An edge cell has 3 in-bounds neighbors: 1 grain falls off.
    assert_eq!(total(&f), 39);
}

#[test]
fn mass_never_increases_during_settling() {
    let mut f = Field::new(7, 7);
    f.put_pixel(3, 3);
    f.put_pixel(3, 3);
    f.put_pixel(3, 3);
    let mut prev = total(&f);
    let mut steps = 0;
    while !f.job_queue.is_empty() {
        assert!(steps < 100_000);
        f.update();
        let now = total(&f);
        assert!(now <= prev);
        prev = now;
        steps += 1;
    }
    assert!(!any_over(&f));
}

#[test]
fn generation_counter_counts_productive_steps() {
    let mut f = Field::new(5, 5);
    assert_eq!(f.iteration, 0);
    f.update();
    // Stepping an empty grid produces no work and no generation.
    assert_eq!(f.iteration, 0);
    f.put_pixel(2, 2);
    f.update();
    // The center still holds 36 grains, so work remains queued.
    assert_eq!(f.iteration, 1);
}
