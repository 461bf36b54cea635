use mazes::Grid;
use mazes::Point;

fn pt(x: isize, y: isize) -> Point {
    Point { x, y }
}

/// Build a grid from rows of 0/1 characters.
fn grid_of(rows: &[&str]) -> Grid {
    let mut g = Grid::new(rows[0].len() as isize, rows.len() as isize);
    for (y, row) in rows.iter().enumerate() {
        for (x, c) in row.chars().enumerate() {
            if c != '0' {
                g.index_mut(pt(x as isize, y as isize), 1);
            }
        }
    }
    g
}

#[test]
fn astar_open_grid_is_cityblock_optimal() {
    let g = Grid::new(5, 5);
    let path = g.find_path_with_a_star(pt(0, 0), pt(4, 4)).unwrap();
    assert_eq!(path.len(), 8);
    assert!(path.contains(&pt(4, 4)));
    assert!(!path.contains(&pt(0, 0)));
}

#[test]
fn bfs_open_grid_finds_route() {
    let g = Grid::new(5, 5);
    let path = g.find_path_of_zeroes(pt(0, 0), pt(4, 4)).unwrap();
    assert!(path.contains(&pt(4, 4)));
    assert!(!path.contains(&pt(0, 0)));
    for p in &path {
        assert_eq!(g.index(*p), Some(0));
    }
}

#[test]
fn returned_path_has_no_duplicates() {
    let g = Grid::new(4, 4);
    let path = g.find_path_with_a_star(pt(0, 0), pt(3, 3)).unwrap();
    for i in 0..path.len() {
        for j in (i + 1)..path.len() {
            assert_ne!(path[i], path[j]);
        }
    }
}

#[test]
fn blocked_start_gives_no_path() {
    let g = grid_of(&["010", "100", "000"]);
    assert!(g.find_path_of_zeroes(pt(0, 0), pt(2, 2)).is_none());
    assert!(g.find_path_with_a_star(pt(0, 0), pt(2, 2)).is_none());
}

#[test]
fn start_equals_end_gives_empty_path() {
    let g = Grid::new(3, 3);
    assert_eq!(g.find_path_of_zeroes(pt(1, 1), pt(1, 1)).unwrap().len(), 0);
    assert_eq!(g.find_path_with_a_star(pt(1, 1), pt(1, 1)).unwrap().len(), 0);
}

#[test]
fn blocked_end_is_unreachable() {
    // Passability gates on the cell being entered, so a nonzero end cell is
    // never reached by either search.
    let g = grid_of(&["000", "000", "001"]);
    assert!(g.find_path_of_zeroes(pt(0, 0), pt(2, 2)).is_none());
    assert!(g.find_path_with_a_star(pt(0, 0), pt(2, 2)).is_none());
}

#[test]
fn start_cell_value_does_not_gate_the_search() {
    // Passability is tested on the cells entered, never on the start cell.
    let g = grid_of(&["100", "000", "000"]);
    let bfs = g.find_path_of_zeroes(pt(0, 0), pt(2, 2));
    let astar = g.find_path_with_a_star(pt(0, 0), pt(2, 2));
    assert!(bfs.is_some());
    assert!(astar.is_some());
}

#[test]
fn both_searches_agree_through_winding_corridor() {
    let g = grid_of(&["00000", "11110", "00000", "01111", "00000"]);
    let bfs = g.find_path_of_zeroes(pt(0, 0), pt(4, 4));
    let astar = g.find_path_with_a_star(pt(0, 0), pt(4, 4));
    assert!(bfs.is_some());
    assert!(astar.is_some());
    let astar = astar.unwrap();
    assert!(astar.contains(&pt(4, 4)));
    for p in &astar {
        assert_eq!(g.index(*p), Some(0));
    }
}

#[test]
fn both_searches_agree_on_separating_wall() {
    let g = grid_of(&["00100", "00100", "00100", "00100", "00100"]);
    assert!(g.find_path_of_zeroes(pt(0, 0), pt(4, 4)).is_none());
    assert!(g.find_path_with_a_star(pt(0, 0), pt(4, 4)).is_none());
}

#[test]
fn wall_with_gap_is_passable() {
    let g = grid_of(&["00100", "00100", "00100", "00100", "00000"]);
    let bfs = g.find_path_of_zeroes(pt(0, 0), pt(4, 0)).unwrap();
    let astar = g.find_path_with_a_star(pt(0, 0), pt(4, 0)).unwrap();
    assert!(bfs.contains(&pt(4, 0)));
    assert!(astar.contains(&pt(4, 0)));
    // The only way around is through the gap at the bottom.
    assert!(astar.contains(&pt(2, 4)));
    assert!(bfs.contains(&pt(2, 4)));
}

#[test]
fn single_cell_grid_paths() {
    let g = Grid::new(1, 1);
    assert_eq!(g.find_path_of_zeroes(pt(0, 0), pt(0, 0)).unwrap().len(), 0);
    assert_eq!(g.find_path_with_a_star(pt(0, 0), pt(0, 0)).unwrap().len(), 0);
}
