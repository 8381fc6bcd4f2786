use sudoku::parser::{clue_beyond, parse_grid, read_tokens};
use sudoku::{Grid, GridConstants};

fn message(result: Result<Grid, String>) -> String {
    match result {
        Ok(_) => panic!("the text was read as a grid"),
        Err(message) => message,
    }
}

#[test]
fn parse_test() {
    let grid_constants = GridConstants::init();
    let grid_str = "4 . . |. . . |8 . 5 
                              . 3 . |. . . |. . . 
                              . . . |7 . . |. . . 
                              ------+------+------
                              . 2 . |. . . |. 6 . 
                              . . . |. 8 . |4 . . 
                              . . . |. 1 . |. . . 
                              ------+------+------
                              . . . |6 . 3 |. 7 . 
                              5 . . |2 . . |. . . 
                              1 . 4 |. . . |. . . ";
    let grid = parse_grid(grid_str, &grid_constants).unwrap();
    assert_eq!(vec![4], *grid.values(&('A', 1)));
    assert_eq!(vec![1, 2, 6, 7, 9], *grid.values(&('A', 3)));
    assert_eq!(vec![3], *grid.values(&('B', 2)));
    assert_eq!(vec![2, 3, 6, 8, 9], *grid.values(&('I', 9)));
}

#[test]
fn blanks_may_be_dots_or_zeros() {
    let constants = GridConstants::init();
    let dots = "4.....8.5.3..........7......2.....6.....8.4......1.......6.3.7.5..2.....1.4......";
    let zeros = "400000805030000000000700000020000060000080400000010000000603070500200000104000000";
    let a = parse_grid(dots, &constants).unwrap();
    let b = parse_grid(zeros, &constants).unwrap();
    for c in constants.cells() {
        assert_eq!(a.values(c), b.values(c));
    }
}

#[test]
fn other_characters_are_ignored() {
    let constants = GridConstants::init();
    let plain = "4.....8.5.3..........7......2.....6.....8.4......1.......6.3.7.5..2.....1.4......";
    let junk = [' ', '|', 'é', '\n', 'x', '┃', '-', '+', '\t', '٣'];
    let mut dressed = String::from("Puzzle: ");
    for (i, c) in plain.chars().enumerate() {
        dressed.push(c);
        dressed.push(junk[i % junk.len()]);
    }
    let a = parse_grid(plain, &constants).unwrap();
    let b = parse_grid(&dressed, &constants).unwrap();
    for c in constants.cells() {
        assert_eq!(a.values(c), b.values(c));
    }
}

#[test]
fn an_empty_board_is_read_as_the_full_grid() {
    let constants = GridConstants::init();
    let grid = parse_grid(&".".repeat(81), &constants).unwrap();
    for c in constants.cells() {
        assert_eq!(vec![1, 2, 3, 4, 5, 6, 7, 8, 9], *grid.values(c));
    }
}

#[test]
fn too_few_cells_are_refused() {
    let constants = GridConstants::init();
    assert_eq!("Invalid number of cells: 0", message(parse_grid("", &constants)));
    assert_eq!("Invalid number of cells: 0", message(parse_grid("no cells here", &constants)));
    assert_eq!("Invalid number of cells: 9", message(parse_grid("4.....8.5", &constants)));
    assert_eq!("Invalid number of cells: 80", message(parse_grid(&".".repeat(80), &constants)));
    let cut = "4.....8.5.3..........7......2.....6.....8.4......1.......6.3.7.5..2";
    assert_eq!("Invalid number of cells: 67", message(parse_grid(cut, &constants)));
}

#[test]
fn blanks_beyond_the_board_are_counted() {
    let constants = GridConstants::init();
    assert_eq!("Invalid number of cells: 82", message(parse_grid(&".".repeat(82), &constants)));
    assert_eq!("Invalid number of cells: 100", message(parse_grid(&"0".repeat(100), &constants)));
    assert_eq!(
        "Invalid number of cells: 1234",
        message(parse_grid(&".".repeat(1234), &constants))
    );
}

#[test]
fn a_clue_beyond_the_board_is_refused() {
    let constants = GridConstants::init();
    let text = ".".repeat(81) + "7";
    assert_eq!("Number of cells larger than 81", message(parse_grid(&text, &constants)));
    let text = ".".repeat(85) + "1" + &".".repeat(10);
    assert_eq!("Number of cells larger than 81", message(parse_grid(&text, &constants)));
}

#[test]
fn equal_clues_in_one_row_are_refused() {
    let constants = GridConstants::init();
    let text = "5.......5".to_string() + &".".repeat(72);
    assert_eq!("Unsolvable sudoku", message(parse_grid(&text, &constants)));
    let text = ".".repeat(27) + "..3..3..." + &".".repeat(45);
    assert_eq!("Unsolvable sudoku", message(parse_grid(&text, &constants)));
}

#[test]
fn equal_clues_in_one_column_or_block_are_refused() {
    let constants = GridConstants::init();
    let text = "8........".to_string() + &".".repeat(63) + "8........";
    assert_eq!("Unsolvable sudoku", message(parse_grid(&text, &constants)));
    let text = "2........".to_string() + ".2......." + &".".repeat(63);
    assert_eq!("Unsolvable sudoku", message(parse_grid(&text, &constants)));
}

#[test]
fn the_count_is_settled_before_any_clue_is_assigned() {
    let constants = GridConstants::init();
    assert_eq!("Invalid number of cells: 2", message(parse_grid("11", &constants)));
    assert_eq!("Invalid number of cells: 9", message(parse_grid("5.......5", &constants)));
    let text = "11".to_string() + &".".repeat(80);
    assert_eq!("Invalid number of cells: 82", message(parse_grid(&text, &constants)));
    let text = "11".to_string() + &".".repeat(79) + "5";
    assert_eq!("Number of cells larger than 81", message(parse_grid(&text, &constants)));
    let text = "11".to_string() + &".".repeat(79);
    assert_eq!("Unsolvable sudoku", message(parse_grid(&text, &constants)));
}

#[test]
fn clashing_clues_in_too_short_a_text_are_counted_first() {
    let constants = GridConstants::init();
    let text = "4...8.5.3...7......2.....6...8.4.....1.....6.3.7.5..2.....1.4......";
    assert_eq!("Invalid number of cells: 67", message(parse_grid(text, &constants)));
    let padded = text.to_string() + &".".repeat(14);
    assert_eq!("Unsolvable sudoku", message(parse_grid(&padded, &constants)));
}

#[test]
fn a_clue_beyond_the_board_comes_before_the_count() {
    let constants = GridConstants::init();
    let text = ".".repeat(90) + "3";
    assert_eq!("Number of cells larger than 81", message(parse_grid(&text, &constants)));
    let text = ".".repeat(81) + "9" + &".".repeat(200);
    assert_eq!("Number of cells larger than 81", message(parse_grid(&text, &constants)));
}

#[test]
fn tokens_are_read_in_order() {
    assert_eq!(vec![4, 0, 0, 8, 0, 5], read_tokens("4 . . |8 0 5"));
    assert_eq!(Vec::<u8>::new(), read_tokens(""));
    assert_eq!(Vec::<u8>::new(), read_tokens("no cells, nor ٣ either"));
    assert_eq!(vec![1, 2, 3, 4, 5, 6, 7, 8, 9, 0, 0], read_tokens("é1x2-3+4|5\n6\t7┃8 9.0"));
}

#[test]
fn a_clue_beyond_the_board_is_found() {
    let mut tokens = vec![0u8; 81];
    assert!(!clue_beyond(&tokens));
    tokens[80] = 7;
    assert!(!clue_beyond(&tokens));
    tokens.push(0);
    assert!(!clue_beyond(&tokens));
    tokens.push(7);
    assert!(clue_beyond(&tokens));
    assert!(!clue_beyond(&vec![1, 2, 3]));
    assert!(!clue_beyond(&vec![]));
}

#[test]
fn clues_that_leave_a_cell_without_a_digit_are_refused() {
    let constants = GridConstants::init();
    let text = "12345678.........9".to_string() + &".".repeat(63);
    assert_eq!("Unsolvable sudoku", message(parse_grid(&text, &constants)));
}
