use thermo::error::GridError;
use thermo::grid::CellGrid;
use thermo::grid::Position;
use thermo::grid::DEFAULT_CSIZE;

fn at(x: i32, y: i32) -> Position {
    Position::new(x, y)
}

fn empty_grid(height: i64, width: i64, csize: i32) -> CellGrid {
    CellGrid::new(height, width, csize, &Vec::new()).unwrap()
}

#[test]
fn default_cell_size_is_five() {
    assert_eq!(DEFAULT_CSIZE, 5);
}

#[test]
fn position_keeps_its_coordinates() {
    let p = Position::new(-3, 7);
    assert_eq!(p.x, -3);
    assert_eq!(p.y, 7);
    assert_eq!(p, Position { x: -3, y: 7 });
}

#[test]
fn grid_has_one_more_column_and_row_than_the_quotients() {
    let grid = empty_grid(100, 200, 5);
    assert_eq!(grid.cx, 41);
    assert_eq!(grid.cy, 21);
    assert_eq!(grid.cells.len(), 861);
    assert_eq!(grid.height, 100);
    assert_eq!(grid.width, 200);
    assert_eq!(grid.csize, 5);
}

#[test]
fn quotients_are_rounded_down() {
    let grid = empty_grid(9, 14, 5);
    assert_eq!(grid.cx, 3);
    assert_eq!(grid.cy, 2);
    assert_eq!(grid.cells.len(), 6);
}

#[test]
fn a_domain_without_extent_still_has_one_cell() {
    let grid = CellGrid::new(0, 0, 5, &vec![at(0, 0)]).unwrap();
    assert_eq!(grid.cx, 1);
    assert_eq!(grid.cy, 1);
    assert_eq!(grid.cells, vec![vec![0]]);
}

#[test]
fn a_cell_larger_than_the_domain_gives_one_cell() {
    let grid = empty_grid(3, 4, 10);
    assert_eq!(grid.cx, 1);
    assert_eq!(grid.cy, 1);
}

#[test]
fn zero_cell_size_is_rejected() {
    assert_eq!(CellGrid::new(100, 200, 0, &Vec::new()).err(), Some(GridError::InvalidConfig));
}

#[test]
fn negative_cell_size_is_rejected() {
    assert_eq!(CellGrid::new(100, 200, -5, &Vec::new()).err(), Some(GridError::InvalidConfig));
    assert_eq!(
        CellGrid::new(100, 200, i32::MIN, &Vec::new()).err(),
        Some(GridError::InvalidConfig)
    );
}

#[test]
fn negative_width_is_rejected() {
    assert_eq!(CellGrid::new(100, -1, 5, &Vec::new()).err(), Some(GridError::InvalidConfig));
}

#[test]
fn negative_height_is_rejected() {
    assert_eq!(CellGrid::new(-1, 200, 5, &Vec::new()).err(), Some(GridError::InvalidConfig));
}

#[test]
fn a_bad_configuration_is_rejected_whatever_the_particles() {
    let particles = vec![at(1_000_000, -7)];
    assert_eq!(CellGrid::new(100, 200, 0, &particles).err(), Some(GridError::InvalidConfig));
}

#[test]
fn cell_index_is_column_plus_columns_times_row() {
    let grid = empty_grid(100, 200, 5);
    assert_eq!(grid.get_cell(at(0, 0)), 0);
    assert_eq!(grid.get_cell(at(4, 4)), 0);
    assert_eq!(grid.get_cell(at(5, 0)), 1);
    assert_eq!(grid.get_cell(at(0, 5)), 41);
    assert_eq!(grid.get_cell(at(50, 50)), 420);
    assert_eq!(grid.get_cell(at(52, 50)), 420);
    assert_eq!(grid.get_cell(at(199, 99)), 39 + 19 * 41);
    assert_eq!(grid.get_cell(at(200, 100)), 860);
}

#[test]
fn cidx_ccol_and_crow_agree_on_every_cell() {
    let grid = empty_grid(20, 30, 5);
    assert_eq!(grid.cx, 7);
    assert_eq!(grid.cy, 5);
    for y in 0..grid.cy {
        for x in 0..grid.cx {
            let idx = grid.cidx((x, y));
            assert_eq!(idx, x + y * 7);
            assert_eq!(grid.ccol(idx), x);
            assert_eq!(grid.crow(idx), y);
        }
    }
    assert_eq!(grid.cidx((3, 2)), 17);
    assert_eq!(grid.ccol(17), 3);
    assert_eq!(grid.crow(17), 2);
}

#[test]
fn cidx_takes_places_off_the_grid_too() {
    let grid = empty_grid(20, 30, 5);
    assert_eq!(grid.cidx((-1, 0)), -1);
    assert_eq!(grid.cidx((0, -1)), -7);
    assert_eq!(grid.cidx((7, 5)), 42);
}

#[test]
fn locate_agrees_with_get_cell_inside_the_domain() {
    let grid = empty_grid(100, 200, 5);
    for &(x, y) in &[(0, 0), (50, 50), (199, 99), (200, 100), (3, 97)] {
        assert_eq!(grid.locate(at(x, y)), Some(grid.get_cell(at(x, y))));
    }
}

#[test]
fn locate_finds_no_cell_below_or_above_the_grid() {
    let grid = empty_grid(100, 200, 5);
    assert_eq!(grid.locate(at(0, -1)), None);
    assert_eq!(grid.locate(at(-1, 0)), None);
    assert_eq!(grid.locate(at(0, 105)), None);
    assert_eq!(grid.locate(at(200, 105)), None);
    assert_eq!(grid.locate(at(i32::MIN, i32::MIN)), None);
    assert_eq!(grid.locate(at(i32::MAX, i32::MAX)), None);
}

#[test]
fn negative_coordinates_are_rounded_down() {
    // Column -1 of row 1 is index 40, and column 41 of row 0 is index 41.
    let grid = empty_grid(100, 200, 5);
    assert_eq!(grid.locate(at(-1, 5)), Some(40));
    assert_eq!(grid.locate(at(-5, 5)), Some(40));
    assert_eq!(grid.locate(at(-6, 5)), Some(39));
    assert_eq!(grid.locate(at(205, 0)), Some(41));
}

#[test]
fn every_particle_is_filed_in_exactly_one_cell() {
    let particles = vec![at(0, 0), at(52, 50), at(50, 50), at(200, 100), at(7, 93), at(51, 54)];
    let grid = CellGrid::new(100, 200, 5, &particles).unwrap();
    for (i, p) in particles.iter().enumerate() {
        let home = grid.get_cell(*p) as usize;
        for (c, cell) in grid.cells.iter().enumerate() {
            let times = cell.iter().filter(|&&e| e == i as i32).count();
            assert_eq!(times, if c == home { 1 } else { 0 });
        }
    }
    let filed: usize = grid.cells.iter().map(|cell| cell.len()).sum();
    assert_eq!(filed, particles.len());
}

#[test]
fn cells_list_their_particles_in_ascending_order() {
    let particles = vec![at(50, 50), at(0, 0), at(52, 50), at(1, 1), at(54, 54)];
    let grid = CellGrid::new(100, 200, 5, &particles).unwrap();
    assert_eq!(grid.cells[420], vec![0, 2, 4]);
    assert_eq!(grid.cells[0], vec![1, 3]);
    for (c, cell) in grid.cells.iter().enumerate() {
        if c != 0 && c != 420 {
            assert!(cell.is_empty());
        }
    }
}

#[test]
fn set_cells_forgets_the_earlier_filing() {
    let mut grid = CellGrid::new(100, 200, 5, &vec![at(0, 0), at(50, 50)]).unwrap();
    assert_eq!(grid.cells[0], vec![0]);
    assert_eq!(grid.cells[420], vec![1]);
    grid.set_cells(&vec![at(50, 50), at(5, 0), at(50, 51)]);
    assert!(grid.cells[0].is_empty());
    assert_eq!(grid.cells[1], vec![1]);
    assert_eq!(grid.cells[420], vec![0, 2]);
    assert_eq!(grid.cx, 41);
    assert_eq!(grid.cy, 21);
    assert_eq!(grid.cells.len(), 861);
    grid.set_cells(&Vec::new());
    assert!(grid.cells.iter().all(|cell| cell.is_empty()));
}

#[test]
fn filing_the_same_particles_twice_gives_the_same_cells() {
    let particles = vec![at(13, 2), at(77, 40), at(13, 3), at(199, 99), at(78, 41)];
    let first = CellGrid::new(100, 200, 5, &particles).unwrap();
    let mut second = CellGrid::new(100, 200, 5, &vec![at(1, 1)]).unwrap();
    second.set_cells(&particles);
    assert_eq!(first.cells, second.cells);
}
