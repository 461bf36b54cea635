use mazes::Automaton;
use mazes::Grid;
use mazes::Point;
use mazes::life;
use mazes::seeds;

fn pt(x: isize, y: isize) -> Point {
    Point { x, y }
}

fn live_cells(g: &Grid) -> Vec<(isize, isize)> {
    let mut out = Vec::new();
    for y in 0..g.dim.height {
        for x in 0..g.dim.width {
            if g.index(pt(x, y)).unwrap() != 0 {
                out.push((x, y));
            }
        }
    }
    out
}

#[test]
fn new_from_dims_starts_all_dead() {
    let at = Automaton::new_from_dims(6, 5, life());
    assert_eq!(at.grid.array.len(), 30);
    assert!(live_cells(&at.grid).is_empty());
}

#[test]
fn isolated_cell_dies_under_life() {
    let mut g = Grid::new(3, 3);
    g.index_mut(pt(1, 1), 1);
    let mut at = Automaton::new(g, life());
    at.step();
    assert!(live_cells(&at.grid).is_empty());
}

#[test]
fn blinker_oscillates_with_period_two() {
    let mut g = Grid::new(5, 5);
    g.index_mut(pt(1, 2), 1);
    g.index_mut(pt(2, 2), 1);
    g.index_mut(pt(3, 2), 1);
    let mut at = Automaton::new(g, life());
    at.step();
    assert_eq!(live_cells(&at.grid), vec![(2, 1), (2, 2), (2, 3)]);
    at.step();
    assert_eq!(live_cells(&at.grid), vec![(1, 2), (2, 2), (3, 2)]);
}

#[test]
fn seeds_pair_spawns_flanking_cells() {
    let mut g = Grid::new(4, 3);
    g.index_mut(pt(1, 1), 1);
    g.index_mut(pt(2, 1), 1);
    let mut at = Automaton::new(g, seeds());
    at.step();
    assert_eq!(live_cells(&at.grid), vec![(1, 0), (2, 0), (1, 2), (2, 2)]);
}

#[test]
fn surviving_cell_keeps_its_stored_value() {
    let mut g = Grid::new(3, 3);
    g.index_mut(pt(1, 1), 5);
    g.index_mut(pt(0, 0), 1);
    g.index_mut(pt(2, 2), 1);
    let mut at = Automaton::new(g, life());
    at.step();
    assert_eq!(at.grid.index(pt(1, 1)), Some(5));
}

#[test]
fn step_reads_only_the_previous_generation() {
    // A row of three under Life: the middle cell of the next generation
    // must be decided by the old row, not by cells already updated in the
    // same pass.
    let mut g = Grid::new(5, 5);
    g.index_mut(pt(1, 2), 1);
    g.index_mut(pt(2, 2), 1);
    g.index_mut(pt(3, 2), 1);
    let mut at = Automaton::new(g, life());
    at.step();
    // Simultaneous update keeps the center alive and births above/below it.
    assert_eq!(at.grid.index(pt(2, 2)), Some(1));
    assert_eq!(at.grid.index(pt(2, 1)), Some(1));
    assert_eq!(at.grid.index(pt(2, 3)), Some(1));
    assert_eq!(at.grid.index(pt(1, 2)), Some(0));
    assert_eq!(at.grid.index(pt(3, 2)), Some(0));
}
