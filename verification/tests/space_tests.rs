use persistent_paths::grid::{Coord, Grid};
use persistent_paths::space::{BiEdge, EdgeSignature, ThresholdedSpace};

/// A probability grid of the given size with every listed cell set to `p`.
fn probabilities(rows: usize, cols: usize, cells: &[(usize, usize)], p: f32) -> Grid<f32> {
    let mut g: Grid<f32> = Grid::new(rows, cols);
    for &(r, c) in cells {
        *g.index_mut(Coord::new(r, c)) = p;
    }
    g
}

/// Cells whose probability is at most `threshold` are free.
fn threshold(p: &Grid<f32>, threshold: f32) -> Grid<bool> {
    p.map(|&v| v <= threshold)
}

fn render_text(space: &ThresholdedSpace, path: &[Coord]) -> String {
    let mut s = String::new();
    for row in space.render(path) {
        for ch in row {
            s.push(ch);
        }
        s.push('\n');
    }
    s
}

#[test]
fn one_obstacle() {
    let pmap = probabilities(10, 10, &[(4, 4), (5, 5), (4, 5), (5, 4), (3, 4)], 1f32);
    let tspace = ThresholdedSpace::from_free_map(threshold(&pmap, 0.5));
    println!("{}", render_text(&tspace, &[]));
    assert!(tspace.obstacles().len() == 1);
    assert!(tspace.obstacles()[0] == (3, 4).into());
}

#[test]
fn two_obstacles() {
    let pmap = probabilities(5, 10, &[(1, 4), (1, 3), (3, 7), (3, 6)], 1.0);
    let tspace = ThresholdedSpace::from_free_map(threshold(&pmap, 0.5));
    println!("{}", render_text(&tspace, &[]));
    println!("{:?}", tspace.obstacles());
    assert!(tspace.obstacles().len() == 2);
    assert!(tspace.obstacles().contains(&(1, 3).into()));
    assert!(tspace.obstacles().contains(&(3, 6).into()));
}

#[test]
fn obstacles_come_in_row_major_order_of_their_smallest_cell() {
    // Two diagonal groups and a lone cell; diagonal contact joins cells.
    let pmap = probabilities(6, 6, &[(0, 5), (1, 4), (2, 3), (4, 0), (5, 1), (3, 5)], 1.0);
    let tspace = ThresholdedSpace::from_free_map(threshold(&pmap, 0.5));
    let obs: Vec<Coord> = tspace.obstacles().clone();
    assert_eq!(obs, vec![Coord::new(0, 5), Coord::new(3, 5), Coord::new(4, 0)]);
}

#[test]
fn no_obstacles_in_an_empty_map() {
    let pmap = probabilities(3, 4, &[], 1.0);
    let tspace = ThresholdedSpace::from_free_map(threshold(&pmap, 0.5));
    assert!(tspace.obstacles().is_empty());
    assert_eq!(tspace.default_signature().len(), 0);
    assert_eq!(render_text(&tspace, &[]), "....\n....\n....\n");
}

#[test]
fn bi_edge_is_symmetric() {
    let a = Coord::new(2, 3);
    let b = Coord::new(1, 7);
    assert_eq!(BiEdge::new(a, b), BiEdge::new(b, a));
    assert_eq!(BiEdge::new(a, b).endpoints(), (b, a));
    assert_eq!(BiEdge::new(a, a).endpoints(), (a, a));
}

#[test]
fn signature_update_is_sum_mod_two() {
    let a: EdgeSignature = vec![0, 1, 1, 0].into();
    let b: EdgeSignature = vec![1, 1, 0, 0].into();
    assert_eq!(a.update(&b).to_vec(), vec![1, 0, 1, 0]);
    // Shorter of the two lengths.
    let c: EdgeSignature = vec![1].into();
    assert_eq!(a.update(&c).to_vec(), vec![1]);
    // Rust remainder keeps the sign.
    let d: EdgeSignature = vec![-3, 3].into();
    let z: EdgeSignature = vec![0, 0].into();
    assert_eq!(d.update(&z).to_vec(), vec![-1, 1]);
    assert!(a.update(&b).update(&b).same_as(&a));
    // Commutative, and the all-zero signature changes nothing.
    assert_eq!(a.update(&b).to_vec(), b.update(&a).to_vec());
    assert_eq!(a.update(&EdgeSignature::zeros(4)).to_vec(), a.to_vec());
}

#[test]
fn crossing_an_obstacle_cut_changes_the_signature() {
    // Obstacle at (2,2); its cut runs between rows 1 and 2 from column 2 rightwards.
    let pmap = probabilities(5, 5, &[(2, 2)], 1.0);
    let tspace = ThresholdedSpace::from_free_map(threshold(&pmap, 0.5));
    assert_eq!(tspace.obstacles().clone(), vec![Coord::new(2, 2)]);
    let crossing = tspace.sig(BiEdge::new(Coord::new(1, 3), Coord::new(2, 3)));
    assert_eq!(crossing.to_vec(), vec![1]);
    let left = tspace.sig(BiEdge::new(Coord::new(1, 1), Coord::new(2, 1)));
    assert_eq!(left.to_vec(), vec![0]);
    let same_side = tspace.sig(BiEdge::new(Coord::new(2, 3), Coord::new(3, 4)));
    assert_eq!(same_side.to_vec(), vec![0]);
    // Into the blocked cell there is no stored signature.
    let blocked = tspace.sig(BiEdge::new(Coord::new(1, 2), Coord::new(2, 2)));
    assert_eq!(blocked.to_vec(), vec![0]);
}

#[test]
fn possible_signatures_enumerates_every_combination_once() {
    let pmap = probabilities(5, 10, &[(1, 4), (3, 7)], 1.0);
    let tspace = ThresholdedSpace::from_free_map(threshold(&pmap, 0.5));
    let mut sigs: Vec<Vec<i32>> = tspace.possible_signatures().iter().map(|s| s.to_vec()).collect();
    sigs.sort();
    assert_eq!(sigs, vec![vec![0, 0], vec![0, 1], vec![1, 0], vec![1, 1]]);
}

#[test]
fn render_marks_start_goal_and_path() {
    let pmap = probabilities(3, 3, &[(1, 1)], 1.0);
    let tspace = ThresholdedSpace::from_free_map(threshold(&pmap, 0.5));
    let path = [Coord::new(0, 0), Coord::new(0, 1), Coord::new(1, 2)];
    assert_eq!(render_text(&tspace, &path), "s*.\n.#g\n...\n");
}
