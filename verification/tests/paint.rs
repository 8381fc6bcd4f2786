use sudoku::paint::{dashes_text, listing_text};
use sudoku::parser::parse_grid;
use sudoku::{Grid, GridConstants};

const PUZZLE: &str =
    "4.....8.5.3..........7......2.....6.....8.4......1.......6.3.7.5..2.....1.4......";

fn expected_text(grid: &Grid, constants: &GridConstants) -> String {
    let widest = constants.cells().iter().map(|c| grid.values(c).len()).max().unwrap();
    let run = "-".repeat((widest + 2) * 3);
    let line = format!("{}+{}+{}", run, run, run);
    let mut text = String::new();
    for c in constants.cells() {
        text += &format!("{:?}", grid.values(c));
        if c.1 == 3 || c.1 == 6 {
            text += "|";
        }
        if c.1 == 9 {
            text += "\n";
            if c.0 == 'C' || c.0 == 'F' {
                text += &line;
                text += "\n";
            }
        }
    }
    text
}

#[test]
fn lists_are_written_in_brackets() {
    assert_eq!("[]", listing_text(&vec![]));
    assert_eq!("[4]", listing_text(&vec![4]));
    assert_eq!("[1, 2, 6, 7, 9]", listing_text(&vec![1, 2, 6, 7, 9]));
    assert_eq!("[0, 10, 255]", listing_text(&vec![0, 10, 255]));
    assert_eq!(format!("{:?}", vec![3u8, 14, 159]), listing_text(&vec![3, 14, 159]));
}

#[test]
fn dashes_come_in_runs() {
    assert_eq!("", dashes_text(0));
    assert_eq!("-", dashes_text(1));
    assert_eq!("---------", dashes_text(9));
}

#[test]
fn a_solved_grid_is_painted_in_nine_lines_and_two_rules() {
    let constants = GridConstants::init();
    let solution = parse_grid(PUZZLE, &constants).unwrap().search().unwrap();
    let expected = "\
[4][1][7]|[3][6][9]|[8][2][5]
[6][3][2]|[1][5][8]|[9][4][7]
[9][5][8]|[7][2][4]|[3][1][6]
---------+---------+---------
[8][2][5]|[4][3][7]|[1][6][9]
[7][9][1]|[5][8][6]|[4][3][2]
[3][4][6]|[9][1][2]|[7][5][8]
---------+---------+---------
[2][8][9]|[6][4][3]|[5][7][1]
[5][7][3]|[2][9][1]|[6][8][4]
[1][6][4]|[8][7][5]|[2][9][3]
";
    assert_eq!(expected, solution.render());
}

#[test]
fn an_open_grid_is_painted_with_all_its_candidates() {
    let constants = GridConstants::init();
    let grid = Grid::init(&constants);
    assert_eq!(expected_text(&grid, &constants), grid.render());
    let rule = "-".repeat(33);
    assert!(grid.render().contains(&format!("\n{}+{}+{}\n", rule, rule, rule)));
    let grid = parse_grid(PUZZLE, &constants).unwrap();
    assert_eq!(expected_text(&grid, &constants), grid.render());
    assert!(grid.render().starts_with("[4][1, 6, 7, 9][1, 2, 6, 7, 9]|[1, 3, 9]"));
}

#[test]
fn a_dead_end_can_still_be_painted() {
    let constants = GridConstants::init();
    let mut grid = Grid::init(&constants);
    assert!(grid.assign(&('A', 1), 1));
    assert!(!grid.assign(&('A', 1), 2));
    assert_eq!(expected_text(&grid, &constants), grid.render());
}

#[test]
fn the_text_of_a_solution_reads_as_that_solution() {
    let constants = GridConstants::init();
    let solution = parse_grid(PUZZLE, &constants).unwrap().search().unwrap();
    let text = solution.render();
    let again = parse_grid(&text, &constants).unwrap();
    for c in constants.cells() {
        assert_eq!(solution.values(c), again.values(c));
    }
    assert_eq!(text, again.render());
}
