use mazes::Grid;
use mazes::Point;

fn pt(x: isize, y: isize) -> Point {
    Point { x, y }
}

#[test]
fn new_grid_is_all_dead() {
    let g = Grid::new(4, 3);
    assert_eq!(g.array.len(), 12);
    for y in 0..3 {
        for x in 0..4 {
            assert_eq!(g.index(pt(x, y)), Some(0));
        }
    }
}

#[test]
fn index_roundtrip_after_write() {
    let mut g = Grid::new(4, 3);
    assert!(g.index_mut(pt(2, 1), 7));
    assert_eq!(g.index(pt(2, 1)), Some(7));
    for y in 0..3 {
        for x in 0..4 {
            if (x, y) != (2, 1) {
                assert_eq!(g.index(pt(x, y)), Some(0));
            }
        }
    }
}

#[test]
fn index_out_of_bounds_is_none() {
    let g = Grid::new(4, 3);
    assert_eq!(g.index(pt(-1, 0)), None);
    assert_eq!(g.index(pt(0, -1)), None);
    assert_eq!(g.index(pt(4, 0)), None);
    assert_eq!(g.index(pt(0, 3)), None);
}

#[test]
fn index_mut_out_of_bounds_changes_nothing() {
    let mut g = Grid::new(2, 2);
    assert!(!g.index_mut(pt(2, 0), 9));
    assert!(!g.index_mut(pt(-1, 1), 9));
    for y in 0..2 {
        for x in 0..2 {
            assert_eq!(g.index(pt(x, y)), Some(0));
        }
    }
}

#[test]
fn moore_neighbors_fixed_order() {
    let ns = Grid::neighbors_of(pt(5, 7));
    let expected = [
        pt(4, 6),
        pt(5, 6),
        pt(6, 6),
        pt(4, 7),
        pt(6, 7),
        pt(4, 8),
        pt(5, 8),
        pt(6, 8),
    ];
    assert_eq!(ns.len(), 8);
    for (got, want) in ns.iter().zip(expected.iter()) {
        assert_eq!(got, want);
    }
}

#[test]
fn limited_neighbors_fixed_order() {
    let ns = Grid::neighbors_of_limited(pt(5, 7));
    let expected = [pt(5, 6), pt(4, 7), pt(6, 7), pt(5, 8)];
    assert_eq!(ns.len(), 4);
    for (got, want) in ns.iter().zip(expected.iter()) {
        assert_eq!(got, want);
    }
}

#[test]
fn valid_neighbors_filters_preserving_order() {
    let g = Grid::new(3, 3);
    let ns = Grid::neighbors_of(pt(0, 0));
    let vs = g.valid_neighbors_of(&ns);
    let expected = [pt(1, 0), pt(0, 1), pt(1, 1)];
    assert_eq!(vs.len(), 3);
    for (got, want) in vs.iter().zip(expected.iter()) {
        assert_eq!(got, want);
    }
}

#[test]
fn corner_counts_only_real_neighbors() {
    let mut g = Grid::new(3, 3);
    g.index_mut(pt(1, 0), 1);
    g.index_mut(pt(0, 1), 1);
    g.index_mut(pt(1, 1), 1);
    assert_eq!(g.sum_neighbors_with_outside_dead(pt(0, 0)), 3);
}

#[test]
fn full_neighborhood_counts_eight() {
    let mut g = Grid::new(3, 3);
    for y in 0..3 {
        for x in 0..3 {
            if (x, y) != (1, 1) {
                g.index_mut(pt(x, y), 1);
            }
        }
    }
    assert_eq!(g.sum_neighbors_with_outside_dead(pt(1, 1)), 8);
}

#[test]
fn off_grid_point_counts_in_grid_neighbors() {
    let mut g = Grid::new(3, 3);
    g.index_mut(pt(0, 0), 1);
    assert_eq!(g.sum_neighbors_with_outside_dead(pt(-1, -1)), 1);
    assert_eq!(g.sum_neighbors_with_outside_dead(pt(-2, -2)), 0);
}

#[test]
fn neighbor_count_never_exceeds_eight() {
    let mut g = Grid::new(4, 4);
    for y in 0..4 {
        for x in 0..4 {
            g.index_mut(pt(x, y), 1);
        }
    }
    for y in -1..5 {
        for x in -1..5 {
            assert!(g.sum_neighbors_with_outside_dead(pt(x, y)) <= 8);
        }
    }
}

#[test]
fn chebyshev_distance_is_max_of_components() {
    assert_eq!(Grid::distance_chebyshev(pt(0, 0), pt(3, -4)), 4);
    assert_eq!(Grid::distance_chebyshev(pt(2, 2), pt(2, 2)), 0);
    assert_eq!(Grid::distance_chebyshev(pt(-1, 5), pt(4, 3)), 5);
}

#[test]
fn cityblock_distance_is_sum_of_components() {
    assert_eq!(Grid::distance_cityblock(pt(0, 0), pt(3, -4)), 7);
    assert_eq!(Grid::distance_cityblock(pt(2, 2), pt(2, 2)), 0);
    assert_eq!(Grid::distance_cityblock(pt(-1, 5), pt(4, 3)), 7);
}
