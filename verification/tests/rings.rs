use radial::rings::{for_each_ring_cell, integer_sqrt, ring_cells, RingCollector, Side};
use std::collections::HashSet;

#[test]
fn center_once() {
    assert_eq!(ring_cells(0), vec![(0, 0)]);
}

#[test]
fn square_ring_has_8r_without_clipping() {
    for r in 1..20 {
        let mut all = RingCollector::new();
        // radius large enough; select the ring explicitly.
        for_each_ring_cell(30, &mut all);
        let count = all.cells().iter().filter(|c| c.ring == r).count();
        assert_eq!(count, 8 * r as usize);
    }
}

#[test]
fn disk_is_exact_and_unique() {
    for radius in 0..20 {
        let cells = ring_cells(radius);
        let unique: HashSet<_> = cells.iter().copied().collect();
        assert_eq!(unique.len(), cells.len());
        let expected = (-radius..=radius)
            .flat_map(|y| (-radius..=radius).map(move |x| (x, y)))
            .filter(|(x, y)| x * x + y * y <= radius * radius)
            .count();
        assert_eq!(cells.len(), expected);
    }
}

#[test]
fn callback_never_receives_outside_cell() {
    let mut all = RingCollector::new();
    for_each_ring_cell(17, &mut all);
    for cell in all.cells() {
        assert!(cell.x * cell.x + cell.y * cell.y <= 17 * 17);
    }
}

#[test]
fn rings_come_near_to_far() {
    let mut all = RingCollector::new();
    for_each_ring_cell(12, &mut all);
    let rings: Vec<u32> = all.cells().iter().map(|c| c.ring).collect();
    assert!(rings.windows(2).all(|pair| pair[0] <= pair[1]));
    for cell in all.cells() {
        assert_eq!(cell.ring as i32, cell.x.abs().max(cell.y.abs()));
    }
}

#[test]
fn corners_have_their_owner() {
    let mut all = RingCollector::new();
    for_each_ring_cell(2, &mut all);
    let side = |x: i32, y: i32| all.cells().iter().find(|c| c.x == x && c.y == y).map(|c| c.side);
    assert_eq!(side(-1, -1), Some(Side::Top));
    assert_eq!(side(1, -1), Some(Side::Top));
    assert_eq!(side(1, 1), Some(Side::Right));
    assert_eq!(side(-1, 1), Some(Side::Bottom));
    assert_eq!(side(-1, 0), Some(Side::Left));
    assert_eq!(side(2, 2), None);
}

#[test]
fn rows_and_columns_have_a_fixed_order() {
    assert_eq!(
        ring_cells(2)[1..9],
        [(-1, -1), (0, -1), (1, -1), (1, 0), (1, 1), (0, 1), (-1, 1), (-1, 0)]
    );
    assert_eq!(ring_cells(1), vec![(0, 0), (0, -1), (1, 0), (0, 1), (-1, 0)]);
}

#[test]
fn negative_radius_visits_nothing() {
    assert!(ring_cells(-1).is_empty());
}

#[test]
fn square_roots_are_rounded_down() {
    for value in 0..2000i64 {
        let root = integer_sqrt(value);
        assert!(root * root <= value && value < (root + 1) * (root + 1));
    }
    assert_eq!(integer_sqrt(-5), 0);
    assert_eq!(integer_sqrt(i64::MAX), 3_037_000_499);
}
