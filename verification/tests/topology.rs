use std::collections::HashSet;
use sudoku::topology::{cell_index, list_contains};
use sudoku::{Cell, GridConstants};

#[test]
fn cross_test() {
    assert_eq!(vec![('A', 1), ('A', 2)], GridConstants::cross(&['A'], &[1, 2]));
}

#[test]
fn grid_constants_test() {
    let grid_constants = GridConstants::init();
    assert_eq!(81, grid_constants.cells().len());
    assert_eq!(27, grid_constants.unitlist().len());
    assert!(grid_constants.cells().iter().all(|c| grid_constants.units(c).len() == 3));
    assert!(grid_constants.cells().iter().all(|c| grid_constants.neighbours(c).len() == 20));
    assert!(grid_constants
        .cells()
        .iter()
        .all(|c| grid_constants.neighbours(c).iter().collect::<HashSet<&Cell>>().len() == 20));
    assert_eq!(
        vec![
            vec![
                ('C', 1 as u8), ('C', 2), ('C', 3), ('C', 4), ('C', 5), ('C', 6), ('C', 7),
                ('C', 8), ('C', 9)
            ],
            vec![
                ('A', 2 as u8), ('B', 2), ('C', 2), ('D', 2), ('E', 2), ('F', 2), ('G', 2),
                ('H', 2), ('I', 2)
            ],
            vec![
                ('A', 1 as u8), ('A', 2), ('A', 3), ('B', 1), ('B', 2), ('B', 3), ('C', 1),
                ('C', 2), ('C', 3)
            ]
        ],
        *grid_constants.units(&('C', 2))
    );
    assert_eq!(
        vec![
            ('A', 2), ('B', 2), ('D', 2), ('E', 2), ('F', 2), ('G', 2), ('H', 2), ('I', 2),
            ('C', 1), ('C', 3), ('C', 4), ('C', 5), ('C', 6), ('C', 7), ('C', 8), ('C', 9),
            ('A', 1), ('A', 3), ('B', 1), ('B', 3)
        ]
        .into_iter()
        .collect::<HashSet<Cell>>(),
        grid_constants.neighbours(&('C', 2)).iter().cloned().collect::<HashSet<Cell>>()
    );
}

#[test]
fn cross_of_nothing_is_empty() {
    assert_eq!(Vec::<Cell>::new(), GridConstants::cross(&[], &[1, 2]));
    assert_eq!(Vec::<Cell>::new(), GridConstants::cross(&['A', 'B'], &[]));
}

#[test]
fn cross_goes_row_by_row() {
    assert_eq!(
        vec![('A', 1), ('A', 2), ('B', 1), ('B', 2), ('C', 1), ('C', 2)],
        GridConstants::cross(&['A', 'B', 'C'], &[1, 2])
    );
}

#[test]
fn cells_are_in_row_major_order() {
    let grid_constants = GridConstants::init();
    let cells = grid_constants.cells();
    assert_eq!(('A', 1), cells[0]);
    assert_eq!(('A', 9), cells[8]);
    assert_eq!(('B', 1), cells[9]);
    assert_eq!(('I', 9), cells[80]);
    for (i, c) in cells.iter().enumerate() {
        assert_eq!(i, cell_index(c));
    }
    assert_eq!(vec![1, 2, 3, 4, 5, 6, 7, 8, 9], *grid_constants.cols());
}

#[test]
fn unitlist_is_rows_then_columns_then_blocks() {
    let grid_constants = GridConstants::init();
    let unitlist = grid_constants.unitlist();
    assert_eq!(GridConstants::cross(&['A'], &[1, 2, 3, 4, 5, 6, 7, 8, 9]), unitlist[0]);
    assert_eq!(GridConstants::cross(&['I'], &[1, 2, 3, 4, 5, 6, 7, 8, 9]), unitlist[8]);
    assert_eq!(
        GridConstants::cross(&['A', 'B', 'C', 'D', 'E', 'F', 'G', 'H', 'I'], &[1]),
        unitlist[9]
    );
    assert_eq!(GridConstants::cross(&['A', 'B', 'C'], &[4, 5, 6]), unitlist[19]);
    assert_eq!(GridConstants::cross(&['G', 'H', 'I'], &[7, 8, 9]), unitlist[26]);
    assert!(unitlist.iter().all(|u| u.len() == 9));
}

#[test]
fn neighbours_are_the_cells_sharing_a_unit() {
    let grid_constants = GridConstants::init();
    for c in grid_constants.cells() {
        let neighbours = grid_constants.neighbours(c);
        assert!(!list_contains(neighbours, c));
        for other in grid_constants.cells() {
            let shares = other != c
                && grid_constants.units(c).iter().any(|u| list_contains(u, other));
            assert_eq!(shares, list_contains(neighbours, other));
        }
    }
}

#[test]
fn neighbours_come_row_first_then_column_then_block() {
    let grid_constants = GridConstants::init();
    assert_eq!(
        vec![
            ('E', 1), ('E', 2), ('E', 3), ('E', 4), ('E', 6), ('E', 7), ('E', 8), ('E', 9),
            ('A', 5), ('B', 5), ('C', 5), ('D', 5), ('F', 5), ('G', 5), ('H', 5), ('I', 5),
            ('D', 4), ('D', 6), ('F', 4), ('F', 6)
        ],
        *grid_constants.neighbours(&('E', 5))
    );
}

#[test]
fn units_are_all_different() {
    let grid_constants = GridConstants::init();
    let unitlist = grid_constants.unitlist();
    for (i, a) in unitlist.iter().enumerate() {
        for b in &unitlist[i + 1..] {
            assert_ne!(a, b);
            assert!(a.iter().any(|c| !list_contains(b, c)));
        }
    }
}

#[test]
fn every_cell_is_in_its_three_units_and_no_other() {
    let grid_constants = GridConstants::init();
    for c in grid_constants.cells() {
        let containing: Vec<&Vec<Cell>> =
            grid_constants.unitlist().iter().filter(|u| list_contains(u, c)).collect();
        let units: Vec<&Vec<Cell>> = grid_constants.units(c).iter().collect();
        assert_eq!(containing, units);
        assert_eq!(3, units.len());
        assert!(units[0].iter().all(|other| other.0 == c.0));
        assert!(units[1].iter().all(|other| other.1 == c.1));
    }
}

#[test]
fn a_copy_of_the_layout_is_the_same_layout() {
    let grid_constants = GridConstants::init();
    let copy = grid_constants.clone();
    assert_eq!(grid_constants.cols(), copy.cols());
    assert_eq!(grid_constants.cells(), copy.cells());
    assert_eq!(grid_constants.unitlist(), copy.unitlist());
    for c in grid_constants.cells() {
        assert_eq!(grid_constants.units(c), copy.units(c));
        assert_eq!(grid_constants.neighbours(c), copy.neighbours(c));
    }
}
