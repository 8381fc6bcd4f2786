use sudoku::parser::parse_grid;
use sudoku::topology::list_contains;
use sudoku::{Cell, Grid, GridConstants};

const PUZZLE: &str =
    "4.....8.5.3..........7......2.....6.....8.4......1.......6.3.7.5..2.....1.4......";

fn board(grid: &Grid, constants: &GridConstants) -> Vec<Vec<u8>> {
    constants.cells().iter().map(|c| grid.values(c).clone()).collect()
}

fn digits(row: &str) -> Vec<u8> {
    row.bytes().map(|b| b - b'0').collect()
}

fn is_permutation(unit: &Vec<Cell>, grid: &Grid) -> bool {
    let mut seen = [false; 10];
    for c in unit {
        let values = grid.values(c);
        if values.len() != 1 || seen[values[0] as usize] {
            return false;
        }
        seen[values[0] as usize] = true;
    }
    (1..=9).all(|d| seen[d])
}

#[test]
fn fresh_grid_lists_every_digit_everywhere() {
    let constants = GridConstants::init();
    let grid = Grid::init(&constants);
    for c in constants.cells() {
        assert_eq!(vec![1, 2, 3, 4, 5, 6, 7, 8, 9], *grid.values(c));
    }
}

#[test]
fn eliminate_takes_one_candidate_away() {
    let constants = GridConstants::init();
    let mut grid = Grid::init(&constants);
    assert!(grid.eliminate(&('D', 4), 7));
    assert_eq!(vec![1, 2, 3, 4, 5, 6, 8, 9], *grid.values(&('D', 4)));
    for c in constants.cells() {
        if *c != ('D', 4) {
            assert_eq!(vec![1, 2, 3, 4, 5, 6, 7, 8, 9], *grid.values(c));
        }
    }
}

#[test]
fn eliminate_of_an_absent_digit_changes_nothing() {
    let constants = GridConstants::init();
    let mut grid = parse_grid(PUZZLE, &constants).unwrap();
    let before = board(&grid, &constants);
    assert!(!grid.values(&('A', 3)).contains(&4));
    assert!(grid.eliminate(&('A', 3), 4));
    assert_eq!(before, board(&grid, &constants));
    assert!(grid.eliminate(&('A', 3), 0));
    assert!(grid.eliminate(&('A', 3), 10));
    assert_eq!(before, board(&grid, &constants));
}

#[test]
fn eliminate_twice_is_eliminate_once() {
    let constants = GridConstants::init();
    let mut grid = Grid::init(&constants);
    assert!(grid.eliminate(&('E', 5), 5));
    let once = board(&grid, &constants);
    assert!(grid.eliminate(&('E', 5), 5));
    assert_eq!(once, board(&grid, &constants));
}

#[test]
fn eliminate_down_to_one_clears_the_neighbours() {
    let constants = GridConstants::init();
    let mut grid = Grid::init(&constants);
    for d in 1..=8 {
        assert!(grid.eliminate(&('A', 1), d));
    }
    assert_eq!(vec![9], *grid.values(&('A', 1)));
    assert_eq!(vec![1, 2, 3, 4, 5, 6, 7, 8], *grid.values(&('A', 2)));
    assert_eq!(vec![1, 2, 3, 4, 5, 6, 7, 8], *grid.values(&('B', 2)));
    assert_eq!(vec![1, 2, 3, 4, 5, 6, 7, 8], *grid.values(&('I', 1)));
    assert_eq!(vec![1, 2, 3, 4, 5, 6, 7, 8, 9], *grid.values(&('E', 5)));
}

#[test]
fn eliminate_of_the_last_candidate_fails() {
    let constants = GridConstants::init();
    let mut grid = Grid::init(&constants);
    assert!(grid.assign(&('A', 1), 9));
    assert!(!grid.eliminate(&('A', 1), 9));
}

#[test]
fn a_digit_with_one_place_left_in_a_unit_goes_there() {
    let constants = GridConstants::init();
    let mut grid = Grid::init(&constants);
    for col in 1..=8 {
        assert!(grid.eliminate(&('A', col), 5));
    }
    assert_eq!(vec![5], *grid.values(&('A', 9)));
    assert_eq!(vec![1, 2, 3, 4, 6, 7, 8, 9], *grid.values(&('B', 9)));
    assert_eq!(vec![1, 2, 3, 4, 6, 7, 8, 9], *grid.values(&('A', 1)));
    assert_eq!(vec![1, 2, 3, 4, 6, 7, 8, 9], *grid.values(&('I', 9)));
    assert_eq!(vec![1, 2, 3, 4, 6, 7, 8, 9], *grid.values(&('B', 7)));
}

#[test]
fn assign_leaves_the_digit_alone_and_clears_the_neighbours() {
    let constants = GridConstants::init();
    let mut grid = Grid::init(&constants);
    assert!(grid.assign(&('C', 2), 7));
    assert_eq!(vec![7], *grid.values(&('C', 2)));
    let neighbours = constants.neighbours(&('C', 2));
    for c in constants.cells() {
        if list_contains(neighbours, c) {
            assert_eq!(vec![1, 2, 3, 4, 5, 6, 8, 9], *grid.values(c));
        } else if *c != ('C', 2) {
            assert_eq!(vec![1, 2, 3, 4, 5, 6, 7, 8, 9], *grid.values(c));
        }
    }
}

#[test]
fn assign_of_the_digit_already_there_changes_nothing() {
    let constants = GridConstants::init();
    let mut grid = parse_grid(PUZZLE, &constants).unwrap();
    let before = board(&grid, &constants);
    assert!(grid.assign(&('A', 1), 4));
    assert_eq!(before, board(&grid, &constants));
}

#[test]
fn assign_of_a_second_digit_fails() {
    let constants = GridConstants::init();
    for first in 1..=9u8 {
        for second in 1..=9u8 {
            if first != second {
                let mut grid = Grid::init(&constants);
                assert!(grid.assign(&('E', 5), first));
                assert!(!grid.assign(&('E', 5), second));
            }
        }
    }
}

#[test]
fn assign_of_no_digit_fails() {
    let constants = GridConstants::init();
    let mut grid = Grid::init(&constants);
    assert!(!grid.assign(&('A', 1), 0));
    let mut grid = Grid::init(&constants);
    assert!(!grid.assign(&('A', 1), 10));
}

#[test]
fn assign_of_a_digit_a_neighbour_holds_fails() {
    let constants = GridConstants::init();
    let mut grid = Grid::init(&constants);
    assert!(grid.assign(&('A', 1), 3));
    assert!(!grid.assign(&('A', 9), 3));
    let mut grid = Grid::init(&constants);
    assert!(grid.assign(&('A', 1), 3));
    assert!(!grid.assign(&('B', 2), 3));
    let mut grid = Grid::init(&constants);
    assert!(grid.assign(&('A', 1), 3));
    assert!(grid.assign(&('B', 4), 3));
}

#[test]
fn clone_is_independent() {
    let constants = GridConstants::init();
    let grid = Grid::init(&constants);
    let mut copy = grid.clone();
    assert!(copy.assign(&('A', 1), 1));
    assert_eq!(vec![1], *copy.values(&('A', 1)));
    assert_eq!(vec![1, 2, 3, 4, 5, 6, 7, 8, 9], *grid.values(&('A', 1)));
    assert_eq!(vec![1, 2, 3, 4, 5, 6, 7, 8, 9], *grid.values(&('A', 2)));
}

#[test]
fn open_cell_is_the_first_with_the_fewest_candidates() {
    let constants = GridConstants::init();
    let grid = Grid::init(&constants);
    assert_eq!(Some(('A', 1)), grid.open_cell());
    let grid = parse_grid(PUZZLE, &constants).unwrap();
    assert_eq!(Some(('G', 2)), grid.open_cell());
    let mut grid = Grid::init(&constants);
    assert!(grid.eliminate(&('H', 8), 1));
    assert!(grid.eliminate(&('C', 3), 2));
    assert_eq!(Some(('C', 3)), grid.open_cell());
    assert!(grid.eliminate(&('H', 8), 2));
    assert_eq!(Some(('H', 8)), grid.open_cell());
    let solved = parse_grid(PUZZLE, &constants).unwrap().search().unwrap();
    assert_eq!(None, solved.open_cell());
}

#[test]
fn search_solves_the_puzzle() {
    let constants = GridConstants::init();
    let grid = parse_grid(PUZZLE, &constants).unwrap();
    let solution = grid.search().unwrap();
    let expected =
        digits("417369825632158947958724316825437169791586432346912758289643571573291684164875293");
    for (i, c) in constants.cells().iter().enumerate() {
        assert_eq!(vec![expected[i]], *solution.values(c));
    }
    for unit in constants.unitlist() {
        assert!(is_permutation(unit, &solution));
    }
    for (i, b) in PUZZLE.bytes().enumerate() {
        if b != b'.' {
            assert_eq!(vec![b - b'0'], *solution.values(&constants.cells()[i]));
        }
    }
}

#[test]
fn search_of_a_solved_grid_returns_it() {
    let constants = GridConstants::init();
    let solution = parse_grid(PUZZLE, &constants).unwrap().search().unwrap();
    let before = board(&solution, &constants);
    let again = solution.search().unwrap();
    assert_eq!(before, board(&again, &constants));
}

#[test]
fn search_takes_the_first_solution_it_meets() {
    let constants = GridConstants::init();
    let solution = Grid::init(&constants).search().unwrap();
    let expected =
        digits("123456789456789123789123456231674895875912364694538217317265948542897631968341572");
    for (i, c) in constants.cells().iter().enumerate() {
        assert_eq!(vec![expected[i]], *solution.values(c));
    }
    let open = "4.....8.5.3..........7......2.....6.....8.4......1.......6.3.7.5..2.....1........";
    let solution = parse_grid(open, &constants).unwrap().search().unwrap();
    let expected =
        digits("467129835231568749859734216328475961715986423694312587982653174573241698146897352");
    for (i, c) in constants.cells().iter().enumerate() {
        assert_eq!(vec![expected[i]], *solution.values(c));
    }
}

#[test]
fn search_finds_that_there_is_no_solution() {
    let constants = GridConstants::init();
    let text =
        ".173..5....2..............6825.....9.9..86..2...9....82.9.4....5.3.9.68..6......3";
    let grid = parse_grid(text, &constants).unwrap();
    assert!(grid.search().is_none());
}

#[test]
fn parse_propagates_every_clue() {
    let constants = GridConstants::init();
    let grid = parse_grid(PUZZLE, &constants).unwrap();
    let expected = "4 1679 12679 139 2369 269 8 1239 5 26789 3 1256789 14589 24569 245689 12679 1249 \
                    124679 2689 15689 125689 7 234569 245689 12369 12349 123469 3789 2 15789 3459 \
                    34579 4579 13579 6 13789 3679 15679 15679 359 8 25679 4 12359 12379 36789 4 \
                    56789 359 1 25679 23579 23589 23789 289 89 289 6 459 3 1259 7 12489 5 6789 3 2 \
                    479 1 69 489 4689 1 6789 4 589 579 5789 23569 23589 23689";
    let expected: Vec<Vec<u8>> = expected.split_whitespace().map(digits).collect();
    assert_eq!(expected, board(&grid, &constants));
}

#[test]
fn a_failed_grid_is_left_as_it_stands() {
    let constants = GridConstants::init();
    let mut grid = Grid::init(&constants);
    assert!(grid.assign(&('A', 1), 1));
    assert!(!grid.assign(&('A', 1), 2));
    assert_eq!(Vec::<u8>::new(), *grid.values(&('A', 1)));
    assert_eq!(vec![2, 3, 4, 5, 6, 7, 8, 9], *grid.values(&('A', 2)));
    assert!(grid.assign(&('A', 1), 5));
    assert_eq!(Vec::<u8>::new(), *grid.values(&('A', 1)));
}

#[test]
fn assignments_may_be_made_in_either_order() {
    let constants = GridConstants::init();
    let clues = [(('A', 1), 4u8), (('A', 7), 8), (('B', 2), 3), (('C', 4), 7), (('I', 3), 4)];
    let mut forward = Grid::init(&constants);
    for (cell, value) in clues.iter() {
        assert!(forward.assign(cell, *value));
    }
    let mut backward = Grid::init(&constants);
    for (cell, value) in clues.iter().rev() {
        assert!(backward.assign(cell, *value));
    }
    assert_eq!(board(&forward, &constants), board(&backward, &constants));
}

#[test]
fn a_solved_grid_is_returned_as_it_is_even_if_it_breaks_a_rule() {
    let constants = GridConstants::init();
    let solution = parse_grid(PUZZLE, &constants).unwrap().search().unwrap();
    let mut broken = solution.clone();
    assert!(!broken.assign(&('A', 1), 1));
    let mut all_decided = true;
    for c in constants.cells() {
        all_decided = all_decided && broken.values(c).len() <= 1;
    }
    if all_decided {
        let before = board(&broken, &constants);
        let again = broken.search().unwrap();
        assert_eq!(before, board(&again, &constants));
    }
}

#[test]
fn equal_grids_are_searched_alike_whatever_their_state() {
    let constants = GridConstants::init();
    let mut first = Grid::init(&constants);
    assert!(first.assign(&('A', 1), 1));
    assert!(!first.assign(&('A', 1), 2));
    let mut second = Grid::init(&constants);
    assert!(second.assign(&('A', 1), 1));
    assert!(!second.assign(&('A', 1), 2));
    assert_eq!(board(&first, &constants), board(&second, &constants));
    assert_eq!(first.assign(&('E', 5), 5), second.assign(&('E', 5), 5));
    assert_eq!(board(&first, &constants), board(&second, &constants));
    let found_first = first.search();
    let found_second = second.search();
    assert_eq!(found_first.is_some(), found_second.is_some());
    if let (Some(a), Some(b)) = (found_first, found_second) {
        assert_eq!(board(&a, &constants), board(&b, &constants));
    }
}
