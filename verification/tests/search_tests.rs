use persistent_paths::grid::{Coord, Grid};
use persistent_paths::space::{EdgeSignature, ThresholdedSpace};

fn space(rows: usize, cols: usize, blocked: &[(usize, usize)]) -> ThresholdedSpace {
    let mut g: Grid<bool> = Grid::new(rows, cols);
    for r in 0..rows {
        for c in 0..cols {
            *g.index_mut(Coord::new(r, c)) = true;
        }
    }
    for &(r, c) in blocked {
        *g.index_mut(Coord::new(r, c)) = false;
    }
    ThresholdedSpace::from_free_map(g)
}

fn check_path(space: &ThresholdedSpace, path: &[Coord], start: Coord, goal: Coord, sig: &[i32]) {
    assert_eq!(path[0], start);
    assert_eq!(*path.last().unwrap(), goal);
    for w in path.windows(2) {
        assert!(space.is_step(w[0], w[1]));
    }
    assert_eq!(space.project_path(path).unwrap().to_vec(), sig.to_vec());
}

#[test]
fn shortest_path_on_an_open_grid_goes_diagonally() {
    let s = space(5, 5, &[]);
    let sig: EdgeSignature = vec![].into();
    let p = s.a_star(Coord::new(0, 0), Coord::new(4, 4), sig).unwrap();
    assert_eq!(p, vec![Coord::new(0, 0), Coord::new(1, 1), Coord::new(2, 2), Coord::new(3, 3), Coord::new(4, 4)]);
}

#[test]
fn start_equal_to_goal_gives_the_one_cell_path() {
    let s = space(4, 4, &[(2, 2)]);
    let p = s.a_star(Coord::new(1, 1), Coord::new(1, 1), vec![0].into()).unwrap();
    assert_eq!(p, vec![Coord::new(1, 1)]);
}

#[test]
fn each_side_of_an_obstacle_has_its_own_signature() {
    let s = space(5, 5, &[(2, 2)]);
    let start = Coord::new(2, 0);
    let goal = Coord::new(2, 4);
    let below = s.a_star(start, goal, vec![0].into()).unwrap();
    assert_eq!(below.len(), 5);
    check_path(&s, &below, start, goal, &[0]);
    assert!(below.iter().all(|c| c.row >= 2));
    let above = s.a_star(start, goal, vec![1].into()).unwrap();
    assert_eq!(above.len(), 5);
    check_path(&s, &above, start, goal, &[1]);
    assert!(above.iter().any(|c| c.row < 2));
}

#[test]
fn detour_is_longer_than_the_direct_route() {
    // A wall in column 2 from row 0 to row 3: going past its top means leaving the grid.
    let s = space(6, 5, &[(0, 2), (1, 2), (2, 2), (3, 2)]);
    let start = Coord::new(0, 0);
    let goal = Coord::new(0, 4);
    let direct = s.a_star(start, goal, vec![0].into()).unwrap();
    check_path(&s, &direct, start, goal, &[0]);
    assert_eq!(direct.len(), 9);
    assert!(s.a_star(start, goal, vec![1].into()).is_none());
}

#[test]
fn unreachable_signature_gives_none() {
    let s = space(3, 3, &[(1, 1)]);
    // Wrong length: no path has this signature.
    assert!(s.a_star(Coord::new(0, 0), Coord::new(2, 2), vec![0, 0].into()).is_none());
    // A value that no signature takes.
    assert!(s.a_star(Coord::new(0, 0), Coord::new(2, 2), vec![2].into()).is_none());
}

#[test]
fn goal_inside_an_obstacle_is_unreachable() {
    let s = space(3, 3, &[(1, 1)]);
    assert!(s.a_star(Coord::new(0, 0), Coord::new(1, 1), vec![0].into()).is_none());
    assert!(s.a_star(Coord::new(0, 0), Coord::new(1, 1), vec![1].into()).is_none());
}

#[test]
fn going_back_and_forth_cancels() {
    let s = space(5, 5, &[(2, 2)]);
    let a = Coord::new(1, 3);
    let b = Coord::new(2, 3);
    assert_eq!(s.project_path(&[a, b]).unwrap().to_vec(), vec![1]);
    assert_eq!(s.project_path(&[a, b, a]).unwrap().to_vec(), vec![0]);
}

#[test]
fn project_path_rejects_invalid_moves() {
    let s = space(5, 5, &[(2, 2)]);
    assert!(s.project_path(&[]).is_none());
    assert!(s.project_path(&[Coord::new(1, 1), Coord::new(2, 2)]).is_none());
    assert!(s.project_path(&[Coord::new(0, 0), Coord::new(0, 2)]).is_none());
    assert_eq!(s.project_path(&[Coord::new(4, 4)]).unwrap().to_vec(), vec![0]);
}
