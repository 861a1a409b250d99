use sandpile::add_assign_signed::AddAssignSigned;
use sandpile::field::Field;

fn total(f: &Field) -> u64 {
    let mut sum: u64 = 0;
    for y in 0..f.height {
        for x in 0..f.width {
            sum += f.get(x, y) as u64;
        }
    }
    sum
}

/// The cells holding a non-zero count, with their counts.
fn nonzero_cells(f: &Field) -> Vec<(usize, usize, u32)> {
    let mut cells = Vec::new();
    for y in 0..f.height {
        for x in 0..f.width {
            let c = f.get(x, y);
            if c != 0 {
                cells.push((x, y, c));
            }
        }
    }
    cells
}

#[test]
fn diagonal_line_visits_each_diagonal_cell_once() {
    let mut f = Field::new(10, 10);
    f.put_line(0, 0, 4, 4);
    // Exactly the five diagonal cells, each visited exactly once, each
    // holding one 40-grain packet, before any toppling has run.
    let mut cells = nonzero_cells(&f);
    cells.sort();
    assert_eq!(
        cells,
        vec![(0, 0, 40), (1, 1, 40), (2, 2, 40), (3, 3, 40), (4, 4, 40)]
    );
    assert_eq!(total(&f), 200);
    assert_eq!(f.job_queue.len(), 5);
    assert_eq!(f.iteration, 0);
}

#[test]
fn reversed_line_visits_the_same_cells() {
    let mut a = Field::new(10, 10);
    let mut b = Field::new(10, 10);
    a.put_line(0, 0, 4, 4);
    b.put_line(4, 4, 0, 0);
    let mut ca = nonzero_cells(&a);
    let mut cb = nonzero_cells(&b);
    ca.sort();
    cb.sort();
    assert_eq!(ca, cb);
}

#[test]
fn single_point_line_is_one_injection() {
    let mut f = Field::new(10, 10);
    f.put_line(3, 3, 3, 3);
    assert_eq!(nonzero_cells(&f), vec![(3, 3, 40)]);
    assert_eq!(total(&f), 40);
}

#[test]
fn horizontal_and_vertical_lines() {
    let mut h = Field::new(10, 10);
    h.put_line(2, 5, 7, 5);
    let mut hc = nonzero_cells(&h);
    hc.sort();
    assert_eq!(
        hc,
        vec![(2, 5, 40), (3, 5, 40), (4, 5, 40), (5, 5, 40), (6, 5, 40), (7, 5, 40)]
    );

    let mut v = Field::new(10, 10);
    v.put_line(4, 8, 4, 2);
    let mut vc = nonzero_cells(&v);
    vc.sort();
    assert_eq!(
        vc,
        vec![(4, 2, 40), (4, 3, 40), (4, 4, 40), (4, 5, 40), (4, 6, 40), (4, 7, 40), (4, 8, 40)]
    );
}

#[test]
fn steep_line_is_connected_and_visits_once() {
    let mut f = Field::new(10, 10);
    f.put_line(1, 1, 3, 8);
    let cells = nonzero_cells(&f);
    // The driving axis is y: one cell per row between the endpoints.
    assert_eq!(cells.len(), 8);
    assert_eq!(total(&f), 8 * 40);
    for &(_, _, c) in cells.iter() {
        assert_eq!(c, 40);
    }
    // Endpoints are included.
    assert_eq!(f.get(1, 1), 40);
    assert_eq!(f.get(3, 8), 40);
    // One cell per row, and consecutive rows hold 8-adjacent cells.
    let mut by_row: Vec<(usize, usize)> = cells.iter().map(|&(x, y, _)| (y, x)).collect();
    by_row.sort();
    for k in 0..by_row.len() - 1 {
        assert_eq!(by_row[k + 1].0, by_row[k].0 + 1);
        let dx = by_row[k + 1].1 as i64 - by_row[k].1 as i64;
        assert!(dx.abs() <= 1);
    }
}

#[test]
fn shallow_negative_slope_line() {
    let mut f = Field::new(12, 6);
    f.put_line(9, 4, 2, 1);
    let cells = nonzero_cells(&f);
    // The driving axis is x: one cell per column between the endpoints.
    assert_eq!(cells.len(), 8);
    for &(_, _, c) in cells.iter() {
        assert_eq!(c, 40);
    }
    assert_eq!(f.get(9, 4), 40);
    assert_eq!(f.get(2, 1), 40);
    let mut by_col: Vec<(usize, usize)> = cells.iter().map(|&(x, y, _)| (x, y)).collect();
    by_col.sort();
    for k in 0..by_col.len() - 1 {
        assert_eq!(by_col[k + 1].0, by_col[k].0 + 1);
        let dy = by_col[k + 1].1 as i64 - by_col[k].1 as i64;
        assert!(dy.abs() <= 1);
    }
}

#[test]
fn clamp_pins_coordinates_to_the_grid() {
    let f = Field::new(10, 10);
    // Continuous input is truncated toward zero, then clamped.
    assert_eq!(f.check_coords((-3.0f32) as i64, (15.0f32) as i64), (0, 9));
    assert_eq!(f.check_coords((4.7f32) as i64, (4.2f32) as i64), (4, 4));
    assert_eq!(f.check_coords(0, 0), (0, 0));
    assert_eq!(f.check_coords(9, 9), (9, 9));
    assert_eq!(f.check_coords(10, 3), (9, 3));
    assert_eq!(f.check_coords(-1, 100), (0, 9));
}

#[test]
fn add_assign_signed_adds_and_subtracts() {
    let mut v: u32 = 7;
    v.add_assign_signed(-4);
    assert_eq!(v, 3);
    v.add_assign_signed(40);
    assert_eq!(v, 43);
    v.add_assign_signed(0);
    assert_eq!(v, 43);
    v.add_assign_signed(-43);
    assert_eq!(v, 0);
}
