use thermo::grid::CellGrid;
use thermo::grid::Position;

fn at(x: i32, y: i32) -> Position {
    Position::new(x, y)
}

fn adjacent(grid: &CellGrid, a: i32, b: i32) -> bool {
    (a % grid.cx - b % grid.cx).abs() <= 1 && (a / grid.cx - b / grid.cx).abs() <= 1
}

/// A fixed, scattered set of positions inside a `width` by `height` domain.
fn scattered(n: usize, width: i32, height: i32) -> Vec<Position> {
    let mut state: u64 = 0x2545_f491_4f6c_dd1d;
    let mut out = Vec::new();
    for _ in 0..n {
        state = state.wrapping_mul(6364136223846793005).wrapping_add(1442695040888963407);
        let x = ((state >> 33) % (width as u64 + 1)) as i32;
        state = state.wrapping_mul(6364136223846793005).wrapping_add(1442695040888963407);
        let y = ((state >> 33) % (height as u64 + 1)) as i32;
        out.push(at(x, y));
    }
    out
}

#[test]
fn corner_cell_has_four_neighbours() {
    let grid = CellGrid::new(100, 200, 5, &Vec::new()).unwrap();
    assert_eq!(grid.neighbor_cells(0), vec![0, 41, 1, 42]);
    assert_eq!(grid.neighbor_cells(860), vec![818, 859, 819, 860]);
    assert_eq!(grid.neighbor_cells(40), vec![39, 80, 40, 81]);
    assert_eq!(grid.neighbor_cells(820), vec![779, 820, 780, 821]);
}

#[test]
fn edge_cell_has_six_neighbours() {
    let grid = CellGrid::new(100, 200, 5, &Vec::new()).unwrap();
    assert_eq!(grid.neighbor_cells(10), vec![9, 50, 10, 51, 11, 52]);
    assert_eq!(grid.neighbor_cells(41), vec![0, 41, 82, 1, 42, 83]);
}

#[test]
fn inner_cell_has_nine_neighbours_column_by_column() {
    let grid = CellGrid::new(100, 200, 5, &Vec::new()).unwrap();
    assert_eq!(grid.neighbor_cells(420), vec![378, 419, 460, 379, 420, 461, 380, 421, 462]);
}

#[test]
fn a_single_cell_is_its_only_neighbour() {
    let grid = CellGrid::new(3, 4, 10, &Vec::new()).unwrap();
    assert_eq!(grid.neighbor_cells(0), vec![0]);
}

#[test]
fn a_single_row_has_neighbours_left_and_right_only() {
    let grid = CellGrid::new(0, 20, 5, &Vec::new()).unwrap();
    assert_eq!(grid.cx, 5);
    assert_eq!(grid.cy, 1);
    assert_eq!(grid.neighbor_cells(0), vec![0, 1]);
    assert_eq!(grid.neighbor_cells(2), vec![1, 2, 3]);
    assert_eq!(grid.neighbor_cells(4), vec![3, 4]);
}

#[test]
fn neighbours_are_always_cells_of_the_grid() {
    for &(height, width, csize) in &[(100i64, 200i64, 5i32), (0, 0, 1), (7, 3, 2), (1, 40, 7)] {
        let grid = CellGrid::new(height, width, csize, &Vec::new()).unwrap();
        let count = grid.cx * grid.cy;
        for idx in 0..count {
            let around = grid.neighbor_cells(idx);
            assert!(!around.is_empty() && around.len() <= 9);
            assert!(around.contains(&idx));
            for (k, &c) in around.iter().enumerate() {
                assert!(0 <= c && c < count);
                assert!(adjacent(&grid, idx, c));
                assert!(!around[..k].contains(&c));
            }
            let expected = (0..count).filter(|&c| adjacent(&grid, idx, c)).count();
            assert_eq!(around.len(), expected);
        }
    }
}

#[test]
fn two_particles_in_one_cell_are_one_candidate_pair() {
    let grid = CellGrid::new(100, 200, 5, &vec![at(50, 50), at(52, 50)]).unwrap();
    assert_eq!(grid.candidate_pairs(), vec![(0, 1)]);
}

#[test]
fn particles_in_adjacent_cells_are_a_candidate_pair() {
    let grid = CellGrid::new(100, 200, 5, &vec![at(54, 54), at(55, 55)]).unwrap();
    assert_eq!(grid.candidate_pairs(), vec![(0, 1)]);
    let grid = CellGrid::new(100, 200, 5, &vec![at(55, 55), at(54, 54)]).unwrap();
    assert_eq!(grid.candidate_pairs(), vec![(0, 1)]);
}

#[test]
fn particles_two_cells_apart_are_no_candidate_pair() {
    let grid = CellGrid::new(100, 200, 5, &vec![at(50, 50), at(60, 50)]).unwrap();
    assert!(grid.candidate_pairs().is_empty());
    let grid = CellGrid::new(100, 200, 5, &vec![at(50, 50), at(50, 60)]).unwrap();
    assert!(grid.candidate_pairs().is_empty());
}

#[test]
fn the_last_column_is_not_adjacent_to_the_next_row() {
    // Cells 40 and 41 have neighbouring indices but lie at opposite ends of the grid.
    let grid = CellGrid::new(100, 200, 5, &vec![at(200, 0), at(0, 5)]).unwrap();
    assert_eq!(grid.get_cell(at(200, 0)), 40);
    assert_eq!(grid.get_cell(at(0, 5)), 41);
    assert!(grid.candidate_pairs().is_empty());
}

#[test]
fn no_particles_no_candidates() {
    let grid = CellGrid::new(100, 200, 5, &Vec::new()).unwrap();
    assert!(grid.candidate_pairs().is_empty());
    let grid = CellGrid::new(100, 200, 5, &vec![at(0, 50)]).unwrap();
    assert!(grid.candidate_pairs().is_empty());
}

#[test]
fn candidates_come_cell_by_cell_and_neighbour_by_neighbour() {
    let particles = vec![at(0, 0), at(5, 0), at(1, 1), at(10, 10), at(5, 5)];
    let grid = CellGrid::new(10, 10, 5, &particles).unwrap();
    assert_eq!(grid.cx, 3);
    assert_eq!(grid.cy, 3);
    assert_eq!(grid.cells[0], vec![0, 2]);
    assert_eq!(grid.cells[1], vec![1]);
    assert_eq!(grid.cells[4], vec![4]);
    assert_eq!(grid.cells[8], vec![3]);
    assert_eq!(
        grid.candidate_pairs(),
        vec![(0, 2), (0, 1), (0, 4), (2, 4), (1, 2), (1, 4), (3, 4)]
    );
}

#[test]
fn candidates_are_the_pairs_in_adjacent_cells_each_once() {
    let particles = scattered(300, 200, 100);
    let grid = CellGrid::new(100, 200, 5, &particles).unwrap();
    let pairs = grid.candidate_pairs();
    let mut expected = 0;
    for i in 0..particles.len() {
        for j in (i + 1)..particles.len() {
            let near = adjacent(&grid, grid.get_cell(particles[i]), grid.get_cell(particles[j]));
            let times = pairs.iter().filter(|&&p| p == (i as i32, j as i32)).count();
            assert_eq!(times, if near { 1 } else { 0 });
            if near {
                expected += 1;
            }
        }
    }
    assert_eq!(pairs.len(), expected);
    assert!(expected > 0);
    assert!(pairs.iter().all(|&(i, j)| i < j));
}

#[test]
fn particles_within_a_cell_side_of_each_other_are_candidates() {
    let particles = scattered(200, 60, 40);
    let grid = CellGrid::new(40, 60, 5, &particles).unwrap();
    let pairs = grid.candidate_pairs();
    for i in 0..particles.len() {
        for j in (i + 1)..particles.len() {
            let (p, q) = (particles[i], particles[j]);
            if (p.x - q.x).abs() <= 5 && (p.y - q.y).abs() <= 5 {
                assert!(pairs.contains(&(i as i32, j as i32)));
            }
        }
    }
}

#[test]
fn the_same_particles_give_the_same_candidates_in_the_same_order() {
    let particles = scattered(250, 200, 100);
    let first = CellGrid::new(100, 200, 5, &particles).unwrap();
    let mut second = CellGrid::new(100, 200, 5, &scattered(40, 200, 100)).unwrap();
    second.set_cells(&particles);
    assert_eq!(first.candidate_pairs(), second.candidate_pairs());
    assert_eq!(first.candidate_pairs(), first.candidate_pairs());
}

#[test]
fn a_coarser_grid_gives_more_candidates() {
    let particles = vec![at(0, 0), at(10, 10), at(20, 20)];
    let fine = CellGrid::new(20, 20, 5, &particles).unwrap();
    assert!(fine.candidate_pairs().is_empty());
    let coarse = CellGrid::new(20, 20, 10, &particles).unwrap();
    assert_eq!(coarse.candidate_pairs(), vec![(0, 1), (1, 2)]);
    let single = CellGrid::new(20, 20, 30, &particles).unwrap();
    assert_eq!(single.candidate_pairs(), vec![(0, 1), (0, 2), (1, 2)]);
}
