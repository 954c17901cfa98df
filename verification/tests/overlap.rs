use thermo::grid::CellGrid;
use thermo::grid::Position;
use thermo::overlap::filter_overlapping;

#[test]
fn keeps_the_flagged_pairs_in_order() {
    let candidates = vec![(0, 2), (0, 1), (0, 4), (2, 4), (1, 2)];
    let flags = vec![true, false, true, true, false];
    assert_eq!(filter_overlapping(&candidates, &flags), vec![(0, 2), (0, 4), (2, 4)]);
}

#[test]
fn keeps_nothing_when_nothing_overlaps() {
    let candidates = vec![(0, 1), (1, 2)];
    assert!(filter_overlapping(&candidates, &vec![false, false]).is_empty());
}

#[test]
fn keeps_everything_when_everything_overlaps() {
    let candidates = vec![(3, 4), (0, 1), (1, 2)];
    assert_eq!(filter_overlapping(&candidates, &vec![true, true, true]), candidates);
}

#[test]
fn keeps_nothing_of_no_candidates() {
    assert!(filter_overlapping(&Vec::new(), &Vec::new()).is_empty());
}

#[test]
fn keeps_a_single_flagged_pair() {
    assert_eq!(filter_overlapping(&vec![(5, 9)], &vec![true]), vec![(5, 9)]);
    assert!(filter_overlapping(&vec![(5, 9)], &vec![false]).is_empty());
}

#[test]
fn the_same_flags_select_the_same_pairs_again() {
    let candidates: Vec<(i32, i32)> = (0..50).map(|k| (k, k + 1)).collect();
    let flags: Vec<bool> = (0..50).map(|k| k % 3 == 0).collect();
    let first = filter_overlapping(&candidates, &flags);
    let second = filter_overlapping(&candidates, &flags);
    assert_eq!(first, second);
    assert_eq!(first.len(), 17);
    assert_eq!(first[0], (0, 1));
    assert_eq!(first[16], (48, 49));
}

#[test]
fn head_on_pair_is_found_and_kept() {
    // Two particles of radius 1 whose centres are 2 apart, in a 200 by 100 domain:
    // the centres are given in floating point and rounded down for the grid.
    let centres: [(f64, f64); 2] = [(50.0, 50.0), (52.0, 50.0)];
    let radius = 1.0;
    let particles: Vec<Position> =
        centres.iter().map(|&(x, y)| Position::new(x.floor() as i32, y.floor() as i32)).collect();
    let grid = CellGrid::new(100, 200, 5, &particles).unwrap();
    let candidates = grid.candidate_pairs();
    assert_eq!(candidates, vec![(0, 1)]);
    let touching: Vec<bool> = candidates
        .iter()
        .map(|&(i, j)| {
            let (a, b) = (centres[i as usize], centres[j as usize]);
            ((a.0 - b.0).powi(2) + (a.1 - b.1).powi(2)).sqrt() <= radius + radius
        })
        .collect();
    assert_eq!(filter_overlapping(&candidates, &touching), vec![(0, 1)]);
    let apart = vec![false];
    assert!(filter_overlapping(&candidates, &apart).is_empty());
}

#[test]
fn a_particle_at_the_wall_is_filed_in_the_first_column() {
    // Centre (0.5, 50) rounds down to column 0 of row 10.
    let (x, y): (f64, f64) = (0.5, 50.0);
    let particles = vec![Position::new(x.floor() as i32, y.floor() as i32)];
    let grid = CellGrid::new(100, 200, 5, &particles).unwrap();
    assert_eq!(grid.cells[10 * 41], vec![0]);
    assert!(grid.candidate_pairs().is_empty());
}
