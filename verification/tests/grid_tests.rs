use persistent_paths::grid::{Coord, Grid};

#[test]
fn coord_basics() {
    let a = Coord::new(3, 7);
    let b: Coord = (5, 2).into();
    assert_eq!(a.row, 3);
    assert_eq!(a.col, 7);
    assert_eq!(a.diff(&b), (-2, 5));
    assert_eq!(b.diff(&a), (2, -5));
    assert!(a.is_before(&b));
    assert!(!b.is_before(&a));
    assert!(Coord::new(3, 1).is_before(&a));
    assert!(!a.is_before(&a));
}

#[test]
fn new_grid_holds_default_values() {
    let g: Grid<u32> = Grid::new(2, 3);
    assert_eq!(g.rows(), 2);
    assert_eq!(g.cols(), 3);
    assert_eq!(g.rows_iter(), vec![vec![0, 0, 0], vec![0, 0, 0]]);
    assert!(g.in_bounds(Coord::new(1, 2)));
    assert!(!g.in_bounds(Coord::new(2, 0)));
    assert!(!g.in_bounds(Coord::new(0, 3)));
}

#[test]
fn index_and_map_and_filter() {
    let mut g: Grid<i32> = Grid::new(2, 3);
    *g.index_mut(Coord::new(0, 1)) = 5;
    *g.index_mut(Coord::new(1, 2)) = 7;
    assert_eq!(*g.index(Coord::new(0, 1)), 5);
    let doubled = g.map(|v| v * 2);
    assert_eq!(doubled.rows_iter(), vec![vec![0, 10, 0], vec![0, 0, 14]]);
    assert_eq!(g.filter(|v| *v > 0), vec![Coord::new(0, 1), Coord::new(1, 2)]);
    assert_eq!(g.filter(|v| *v == 0).len(), 4);
}

#[test]
fn neighbors_in_the_middle_are_the_eight_around() {
    let g: Grid<bool> = Grid::new(3, 3);
    assert_eq!(
        g.neighbors(Coord::new(1, 1)),
        vec![
            Coord::new(2, 1),
            Coord::new(2, 2),
            Coord::new(1, 2),
            Coord::new(0, 1),
            Coord::new(0, 0),
            Coord::new(1, 0),
            Coord::new(2, 0),
            Coord::new(0, 2),
        ]
    );
}

#[test]
fn neighbors_at_a_corner_repeat_as_the_scan_does() {
    let g: Grid<bool> = Grid::new(3, 3);
    // Saturating at zero yields the corner itself and repeats; only runs collapse.
    assert_eq!(
        g.neighbors(Coord::new(0, 0)),
        vec![
            Coord::new(1, 0),
            Coord::new(1, 1),
            Coord::new(0, 1),
            Coord::new(0, 0),
            Coord::new(1, 0),
            Coord::new(0, 1),
        ]
    );
    // At the far corner the out-of-bounds cells are dropped.
    assert_eq!(
        g.neighbors(Coord::new(2, 2)),
        vec![Coord::new(1, 2), Coord::new(1, 1), Coord::new(2, 1)]
    );
}

#[test]
fn filter_neighbors_keeps_matching_cells() {
    let mut g: Grid<bool> = Grid::new(3, 3);
    *g.index_mut(Coord::new(0, 1)) = true;
    *g.index_mut(Coord::new(2, 2)) = true;
    assert_eq!(
        g.filter_neighbors(Coord::new(1, 1), |b| *b),
        vec![Coord::new(2, 2), Coord::new(0, 1)]
    );
}

#[test]
fn neighbor_relation_is_symmetric_inside_the_grid() {
    let g: Grid<bool> = Grid::new(4, 5);
    for r in 0..4 {
        for c in 0..5 {
            let a = Coord::new(r, c);
            for b in g.neighbors(a) {
                assert!(g.neighbors(b).contains(&a), "{:?} -> {:?}", a, b);
                assert!(a.row.abs_diff(b.row) <= 1 && a.col.abs_diff(b.col) <= 1);
            }
        }
    }
}
