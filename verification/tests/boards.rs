use rsudoku::board::SudokuBoard;
use rsudoku::cell::CellValue;
use rsudoku::digits::DigitSet;
use rsudoku::error::SudokuError;
use rsudoku::geometry::Point;

const PUZZLE: &str = "\
53..7....
6..195...
.98....6.
8...6...3
4..8.3..1
7...2...6
.6....28.
...419..5
....8..79";

const PUZZLE_CELLS: &str = "\
53xx7xxxx\
6xx195xxx\
x98xxxx6x\
8xxx6xxx3\
4xx8x3xx1\
7xxx2xxx6\
x6xxxx28x\
xxx419xx5\
xxxx8xx79";

const HARD: &str = "\
8xxxxxxxx\
xx36xxxxx\
x7xx9x2xx\
x5xxx7xxx\
xxxx457xx\
xxx1xxx3x\
xx1xxxx68\
xx85xxx1x\
x9xxxx4xx";

const SOLVED: &str = "\
534678912\
672195348\
198342567\
859761423\
426853791\
713924856\
961537284\
287419635\
345286179";

fn open_cell() -> CellValue {
    CellValue::Candidates(DigitSet::full())
}

#[test]
fn new_places_cells_row_by_row() {
    let board = SudokuBoard::new(PUZZLE_CELLS).unwrap();
    assert_eq!(board.cell(Point::new(0, 0)), CellValue::Fixed(5));
    assert_eq!(board.cell(Point::new(0, 1)), CellValue::Fixed(3));
    assert_eq!(board.cell(Point::new(0, 2)), open_cell());
    assert_eq!(board.cell(Point::new(0, 4)), CellValue::Fixed(7));
    assert_eq!(board.cell(Point::new(1, 0)), CellValue::Fixed(6));
    assert_eq!(board.cell(Point::new(8, 7)), CellValue::Fixed(7));
    assert_eq!(board.cell(Point::new(8, 8)), CellValue::Fixed(9));
    assert_eq!(board.empty_count(), 51);
    assert!(!board.is_solved());
    assert!(!board.initialized());
}

#[test]
fn new_passes_over_unrecognized_characters() {
    let plain = SudokuBoard::new(PUZZLE_CELLS).unwrap();
    let spaced = SudokuBoard::new(
        " 5 3 x | x 7 x | x x x \n 6 x x | 1 9 5 | x x x \n x 9 8 | x x x | x 6 x \n\
         -----------------------\n 8 x x | x 6 x | x x 3 \n 4 x x | 8 x 3 | x x 1 \n\
         7 x x | x 2 x | x x 6 \n-----------------------\n x 6 x | x x x | 2 8 x \n\
         x x x | 4 1 9 | x x 5 \n x x x | x 8 x | x 7 9 \n",
    )
    .unwrap();
    for i in 0..81 {
        assert_eq!(plain.cell(Point::at(i)), spaced.cell(Point::at(i)));
    }
    assert_eq!(spaced.empty_count(), 51);
}

#[test]
fn new_does_not_count_dots_as_cells() {
    // The dots of the puzzle text are passed over: it holds thirty cells only.
    assert_eq!(SudokuBoard::new(PUZZLE).err(), Some(SudokuError::ParseError));
}

#[test]
fn new_stops_after_eighty_one_cells() {
    let mut text = String::from(SOLVED);
    text.push_str("123456789");
    let board = SudokuBoard::new(&text).unwrap();
    assert_eq!(board.cell(Point::new(8, 8)), CellValue::Fixed(9));
    assert_eq!(board.empty_count(), 0);
    assert!(board.is_solved());
}

#[test]
fn new_refuses_eighty_cells() {
    let text = &SOLVED[..80];
    assert_eq!(SudokuBoard::new(text).err(), Some(SudokuError::ParseError));
    let mut padded = String::from(text);
    padded.push_str(" \n\n ... --- ||| \n");
    assert_eq!(SudokuBoard::new(&padded).err(), Some(SudokuError::ParseError));
}

#[test]
fn new_refuses_empty_text() {
    assert_eq!(SudokuBoard::new("").err(), Some(SudokuError::ParseError));
}

#[test]
fn new_accepts_zero_and_letters_as_placeholders() {
    let mut text = String::new();
    for k in 0..81 {
        text.push(['0', 'a', 'Z', 'q'][k % 4]);
    }
    let board = SudokuBoard::new(&text).unwrap();
    for i in 0..81 {
        assert_eq!(board.cell(Point::at(i)), open_cell());
    }
    assert_eq!(board.empty_count(), 81);
}

#[test]
fn new_accepts_two_equal_digits_in_a_row() {
    let mut text = String::from("55");
    for _ in 0..79 {
        text.push('x');
    }
    let board = SudokuBoard::new(&text).unwrap();
    assert_eq!(board.cell(Point::new(0, 0)), CellValue::Fixed(5));
    assert_eq!(board.cell(Point::new(0, 1)), CellValue::Fixed(5));
    assert_eq!(board.empty_count(), 79);
}

#[test]
fn empty_count_is_the_number_of_open_cells() {
    let mut board = SudokuBoard::new(HARD).unwrap();
    let count = |b: &SudokuBoard| {
        (0..81).filter(|i| matches!(b.cell(Point::at(*i)), CellValue::Candidates(_))).count()
    };
    assert_eq!(board.empty_count(), 60);
    assert_eq!(board.empty_count(), count(&board));
    board.initial_check().unwrap();
    assert_eq!(board.empty_count(), count(&board));
    board.fill_space(Point::new(0, 1), 1).unwrap();
    assert_eq!(board.empty_count(), 59);
    assert_eq!(board.empty_count(), count(&board));
    board.narrow().unwrap();
    assert_eq!(board.empty_count(), count(&board));
    let mut board = SudokuBoard::new(HARD).unwrap();
    assert!(board.solve());
    assert_eq!(board.empty_count(), count(&board));
    assert_eq!(board.empty_count(), 0);
}

#[test]
fn render_shows_rows_bars_and_rules() {
    let board = SudokuBoard::new(SOLVED).unwrap();
    let expected = "\
5 3 4 | 6 7 8 | 9 1 2 |
6 7 2 | 1 9 5 | 3 4 8 |
1 9 8 | 3 4 2 | 5 6 7 |
-----------------------
8 5 9 | 7 6 1 | 4 2 3 |
4 2 6 | 8 5 3 | 7 9 1 |
7 1 3 | 9 2 4 | 8 5 6 |
-----------------------
9 6 1 | 5 3 7 | 2 8 4 |
2 8 7 | 4 1 9 | 6 3 5 |
3 4 5 | 2 8 6 | 1 7 9 |";
    assert_eq!(board.render(), expected);
}

#[test]
fn render_has_eleven_lines_of_equal_width() {
    let board = SudokuBoard::new(PUZZLE_CELLS).unwrap();
    let text = board.render();
    let lines: Vec<&str> = text.split('\n').collect();
    assert_eq!(lines.len(), 11);
    for line in lines.iter() {
        assert_eq!(line.chars().count(), 23);
    }
    assert_eq!(lines[3], "-----------------------");
    assert_eq!(lines[7], "-----------------------");
    assert_eq!(lines[0], "5 3 0 | 0 7 0 | 0 0 0 |");
    assert_eq!(lines[10], "0 0 0 | 0 8 0 | 0 7 9 |");
}

#[test]
fn render_reproduces_digits_and_placeholders() {
    let board = SudokuBoard::new(PUZZLE_CELLS).unwrap();
    let shown: Vec<char> = board
        .render()
        .chars()
        .filter(|c| c.is_ascii_digit())
        .collect();
    let given: Vec<char> = PUZZLE_CELLS
        .chars()
        .map(|c| if c == 'x' { '0' } else { c })
        .collect();
    assert_eq!(shown, given);
}

#[test]
fn rendered_text_reads_back_as_the_same_board() {
    let board = SudokuBoard::new(PUZZLE_CELLS).unwrap();
    let again = SudokuBoard::new(&board.render()).unwrap();
    for i in 0..81 {
        assert_eq!(board.cell(Point::at(i)), again.cell(Point::at(i)));
    }
}

#[test]
fn clone_is_independent_of_its_source() {
    let mut board = SudokuBoard::new(HARD).unwrap();
    board.initial_check().unwrap();
    let mut copy = board.clone();
    assert!(copy.initialized());
    assert!(copy.solve());
    assert!(copy.is_solved());
    assert!(!board.is_solved());
    assert_eq!(board.empty_count(), 60);
    assert_eq!(board.cell(Point::new(0, 0)), CellValue::Fixed(8));
    assert!(matches!(board.cell(Point::new(0, 1)), CellValue::Candidates(_)));
}

#[test]
fn render_after_a_failed_solve_shows_the_board_as_given() {
    let mut text = String::from("11");
    for _ in 0..79 {
        text.push('0');
    }
    let mut board = SudokuBoard::new(&text).unwrap();
    assert!(!board.solve());
    assert!(!board.is_solved());
    let expected = "\
1 1 0 | 0 0 0 | 0 0 0 |
0 0 0 | 0 0 0 | 0 0 0 |
0 0 0 | 0 0 0 | 0 0 0 |
-----------------------
0 0 0 | 0 0 0 | 0 0 0 |
0 0 0 | 0 0 0 | 0 0 0 |
0 0 0 | 0 0 0 | 0 0 0 |
-----------------------
0 0 0 | 0 0 0 | 0 0 0 |
0 0 0 | 0 0 0 | 0 0 0 |
0 0 0 | 0 0 0 | 0 0 0 |";
    assert_eq!(board.render(), expected);
}

#[test]
fn render_keeps_every_given_digit_whatever_the_outcome() {
    for text in [
        HARD,
        "1xxxxxxxxxx36xxxxxx7xx9x2xxx5xxx7xxxxxxx457xxxxx1xxx3xxx1xxxx68xx85xxx1xx9xxxx4xx",
    ] {
        let mut board = SudokuBoard::new(text).unwrap();
        board.solve();
        let shown: Vec<char> = board
            .render()
            .chars()
            .filter(|c| c.is_ascii_digit())
            .collect();
        assert_eq!(shown.len(), 81);
        for (k, c) in text.chars().filter(|c| c.is_ascii_alphanumeric()).enumerate() {
            if c.is_ascii_digit() {
                assert_eq!(shown[k], c);
            }
        }
    }
}
