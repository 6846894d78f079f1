use rsudoku::SudokuBoard;
use rsudoku::cell::CellValue;
use rsudoku::digits::DigitSet;
use rsudoku::SudokuError;
use rsudoku::geometry::{adjacent_cells, all_units, Point};

const PUZZLE_CELLS: &str = "\
53xx7xxxx\
6xx195xxx\
x98xxxx6x\
8xxx6xxx3\
4xx8x3xx1\
7xxx2xxx6\
x6xxxx28x\
xxx419xx5\
xxxx8xx79";

const SOLVED: &str = "\
534678912\
672195348\
198342567\
859761423\
426853791\
713924856\
961537284\
287419635\
345286179";

const MEDIUM: &str = "\
x3xx78xxx\
67xxxxxxx\
x9x3x2xxx\
8xxxxxx23\
x268xxx91\
xx3xx485x\
9xx537x84\
x8x4x9x3x\
3x5xx6xxx";

const HARD: &str = "\
8xxxxxxxx\
xx36xxxxx\
x7xx9x2xx\
x5xxx7xxx\
xxxx457xx\
xxx1xxx3x\
xx1xxxx68\
xx85xxx1x\
x9xxxx4xx";

const HARD_SOLVED: &str = "\
812753649\
943682175\
675491283\
154237896\
369845721\
287169534\
521974368\
438526917\
796318452";

fn set_of(digits: &[u8]) -> DigitSet {
    let mut s = DigitSet::empty();
    for d in digits {
        s.insert(*d);
    }
    s
}

fn cells(board: &SudokuBoard) -> Vec<CellValue> {
    (0..81).map(|i| board.cell(Point::at(i))).collect()
}

fn two_givens(first: usize, second: usize, digit: char) -> String {
    (0..81)
        .map(|i| if i == first || i == second { digit } else { '0' })
        .collect()
}

fn blank() -> SudokuBoard {
    let text: String = std::iter::repeat('x').take(81).collect();
    SudokuBoard::new(&text).unwrap()
}

fn with_hole(solved: &str, at: usize) -> String {
    solved
        .chars()
        .enumerate()
        .map(|(i, c)| if i == at { 'x' } else { c })
        .collect()
}

fn digits(board: &SudokuBoard) -> String {
    (0..81)
        .map(|i| board.cell(Point::at(i)).to_char())
        .collect()
}

fn is_valid_solution(board: &SudokuBoard) -> bool {
    for unit in all_units().iter() {
        let mut seen = [false; 10];
        for p in unit.iter() {
            match board.cell(*p) {
                CellValue::Fixed(d) if (1..=9).contains(&d) && !seen[d as usize] => {
                    seen[d as usize] = true;
                }
                _ => return false,
            }
        }
    }
    true
}

fn is_propagated(board: &SudokuBoard) -> bool {
    for i in 0..81 {
        if let CellValue::Fixed(d) = board.cell(Point::at(i)) {
            for q in adjacent_cells(Point::at(i)) {
                match board.cell(q) {
                    CellValue::Fixed(e) if e == d => return false,
                    CellValue::Candidates(s) if s.contains(d) => return false,
                    _ => {}
                }
            }
        }
    }
    true
}

#[test]
fn initial_check_rules_given_digits_out() {
    let mut board = SudokuBoard::new(HARD).unwrap();
    assert_eq!(board.initial_check(), Ok(()));
    assert!(board.initialized());
    assert!(is_propagated(&board));
    assert_eq!(board.empty_count(), 60);
    // Row 0 holds 8; column 1 holds 7, 5, 9; the box holds 8, 3, 7.
    assert_eq!(board.cell(Point::new(0, 1)), CellValue::Candidates(set_of(&[1, 2, 4, 6])));
    assert_eq!(board.cell(Point::new(1, 1)), CellValue::Candidates(set_of(&[1, 2, 4])));
    assert_eq!(board.cell(Point::new(7, 6)), CellValue::Candidates(set_of(&[3, 9])));
    // Given digits stay.
    assert_eq!(board.cell(Point::new(0, 0)), CellValue::Fixed(8));
    assert_eq!(board.cell(Point::new(4, 4)), CellValue::Fixed(4));
}

#[test]
fn initial_check_fixes_cells_with_one_candidate_left() {
    let mut board = SudokuBoard::new(&with_hole(SOLVED, 40)).unwrap();
    assert_eq!(board.empty_count(), 1);
    assert_eq!(board.initial_check(), Ok(()));
    assert_eq!(board.cell(Point::new(4, 4)), CellValue::Fixed(5));
    assert_eq!(board.empty_count(), 0);
    assert!(board.is_solved());
}

#[test]
fn initial_check_cascades() {
    let mut board = SudokuBoard::new(PUZZLE_CELLS).unwrap();
    assert_eq!(board.empty_count(), 51);
    assert_eq!(board.initial_check(), Ok(()));
    assert_eq!(board.empty_count(), 0);
    assert_eq!(digits(&board), SOLVED);
}

#[test]
fn initial_check_runs_once() {
    let mut board = SudokuBoard::new(MEDIUM).unwrap();
    assert_eq!(board.empty_count(), 48);
    assert_eq!(board.initial_check(), Ok(()));
    assert_eq!(board.empty_count(), 32);
    let before: Vec<CellValue> = (0..81).map(|i| board.cell(Point::at(i))).collect();
    assert_eq!(board.initial_check(), Ok(()));
    let after: Vec<CellValue> = (0..81).map(|i| board.cell(Point::at(i))).collect();
    assert_eq!(before, after);
    assert_eq!(board.empty_count(), 32);
}

#[test]
fn initial_check_finds_two_equal_digits_in_a_row() {
    let mut text = String::from("5xxxxxxx5");
    for _ in 0..72 {
        text.push('x');
    }
    let mut board = SudokuBoard::new(&text).unwrap();
    assert_eq!(board.initial_check(), Err(SudokuError::Unsolvable));
}

#[test]
fn initial_check_finds_a_cell_without_candidates() {
    // No digit clashes with another, but the corner sees 1 to 8 in its row
    // and 9 in its column.
    let text = "\
12345678x\
xxxxxxxxx\
xxxxxxxxx\
xxxxxxxx9\
xxxxxxxxx\
xxxxxxxxx\
xxxxxxxxx\
xxxxxxxxx\
xxxxxxxxx";
    let mut board = SudokuBoard::new(text).unwrap();
    assert_eq!(board.initial_check(), Err(SudokuError::Unsolvable));
}

#[test]
fn fill_space_counts_newly_fixed_cells() {
    let mut board = blank();
    board.initial_check().unwrap();
    assert_eq!(board.fill_space(Point::new(0, 0), 5), Ok(1));
    assert_eq!(board.cell(Point::new(0, 0)), CellValue::Fixed(5));
    assert_eq!(board.empty_count(), 80);
    let rest = set_of(&[1, 2, 3, 4, 6, 7, 8, 9]);
    for q in adjacent_cells(Point::new(0, 0)) {
        assert_eq!(board.cell(q), CellValue::Candidates(rest));
    }
    assert_eq!(board.cell(Point::new(4, 4)), CellValue::Candidates(DigitSet::full()));
    assert!(is_propagated(&board));
    assert!(board.initialized());
}

#[test]
fn fill_space_cascades() {
    // Row 0 is filled but for its last two cells; fixing one forces the other.
    let mut text = String::from("1234567xx");
    for _ in 0..72 {
        text.push('x');
    }
    let mut board = SudokuBoard::new(&text).unwrap();
    board.initial_check().unwrap();
    assert_eq!(board.cell(Point::new(0, 7)), CellValue::Candidates(set_of(&[8, 9])));
    assert_eq!(board.cell(Point::new(0, 8)), CellValue::Candidates(set_of(&[8, 9])));
    assert_eq!(board.empty_count(), 74);
    assert_eq!(board.fill_space(Point::new(0, 7), 9), Ok(2));
    assert_eq!(board.cell(Point::new(0, 7)), CellValue::Fixed(9));
    assert_eq!(board.cell(Point::new(0, 8)), CellValue::Fixed(8));
    assert_eq!(board.empty_count(), 72);
    assert!(is_propagated(&board));
}

#[test]
fn fill_space_cascades_from_another_unit() {
    let mut text = String::from("1234567xx");
    for _ in 0..72 {
        text.push('x');
    }
    let mut board = SudokuBoard::new(&text).unwrap();
    board.initial_check().unwrap();
    // An 8 further down the last column leaves 9 for the corner, and that
    // leaves 8 for the cell beside it.
    assert_eq!(board.fill_space(Point::new(3, 8), 8), Ok(3));
    assert_eq!(board.cell(Point::new(3, 8)), CellValue::Fixed(8));
    assert_eq!(board.cell(Point::new(0, 8)), CellValue::Fixed(9));
    assert_eq!(board.cell(Point::new(0, 7)), CellValue::Fixed(8));
    assert_eq!(board.empty_count(), 71);
    assert!(is_propagated(&board));
}

#[test]
fn fill_space_on_the_same_digit_is_no_assignment() {
    let mut board = SudokuBoard::new(HARD).unwrap();
    board.initial_check().unwrap();
    let before: Vec<CellValue> = (0..81).map(|i| board.cell(Point::at(i))).collect();
    assert_eq!(board.fill_space(Point::new(0, 0), 8), Ok(0));
    let after: Vec<CellValue> = (0..81).map(|i| board.cell(Point::at(i))).collect();
    assert_eq!(before, after);
    assert_eq!(board.empty_count(), 60);
}

#[test]
fn fill_space_refuses_to_overwrite() {
    let mut board = SudokuBoard::new(HARD).unwrap();
    board.initial_check().unwrap();
    let before: Vec<CellValue> = (0..81).map(|i| board.cell(Point::at(i))).collect();
    assert_eq!(board.fill_space(Point::new(0, 0), 4), Err(SudokuError::Overwrite));
    assert_eq!(board.fill_space(Point::new(0, 0), 0), Err(SudokuError::Overwrite));
    let after: Vec<CellValue> = (0..81).map(|i| board.cell(Point::at(i))).collect();
    assert_eq!(before, after);
    assert_eq!(board.empty_count(), 60);
    assert!(board.initialized());
}

#[test]
fn fill_space_refuses_a_digit_that_is_no_candidate() {
    let mut board = SudokuBoard::new(HARD).unwrap();
    board.initial_check().unwrap();
    assert_eq!(board.cell(Point::new(1, 1)), CellValue::Candidates(set_of(&[1, 2, 4])));
    assert_eq!(board.fill_space(Point::new(1, 1), 5), Err(SudokuError::InvalidAssignment));
    assert_eq!(board.fill_space(Point::new(1, 1), 0), Err(SudokuError::InvalidAssignment));
    assert_eq!(board.fill_space(Point::new(1, 1), 10), Err(SudokuError::InvalidAssignment));
    assert_eq!(board.cell(Point::new(1, 1)), CellValue::Candidates(set_of(&[1, 2, 4])));
    assert_eq!(board.empty_count(), 60);
    assert!(board.initialized());
}

#[test]
fn fill_space_reports_unsolvable() {
    let mut text = String::from("1234567xx");
    for _ in 0..72 {
        text.push('x');
    }
    let mut board = SudokuBoard::new(&text).unwrap();
    board.initial_check().unwrap();
    let mut trial = board.clone();
    // An 8 at (1, 7) leaves 9 for (0, 7) and then 8 for (0, 8), which shares
    // the box with (1, 7).
    assert_eq!(trial.fill_space(Point::new(1, 7), 8), Err(SudokuError::Unsolvable));
    assert_eq!(board.empty_count(), 74);
    assert_eq!(board.cell(Point::new(0, 7)), CellValue::Candidates(set_of(&[8, 9])));
    // The failed assignment has left no trace.
    assert_eq!(cells(&trial), cells(&board));
    assert_eq!(trial.empty_count(), 74);
    assert!(trial.initialized());
    assert!(!trial.contradicted());
    assert_eq!(trial.fill_space(Point::new(1, 7), 1), Ok(1));
}

#[test]
fn narrow_places_a_digit_with_a_single_place() {
    // Digit 1 stands in rows 1 and 2 and in columns 1 and 2 outside the first
    // box: within the box it fits the corner only.
    let text = "\
xxxxxxxxx\
xxx1xxxxx\
xxxxxx1xx\
x1xxxxxxx\
xxxxxxxxx\
xxxxxxxxx\
xx1xxxxxx\
xxxxxxxxx\
xxxxxxxxx";
    let mut board = SudokuBoard::new(text).unwrap();
    board.initial_check().unwrap();
    assert_eq!(board.cell(Point::new(0, 0)), CellValue::Candidates(DigitSet::full()));
    assert_eq!(board.empty_count(), 77);
    assert_eq!(board.narrow(), Ok(1));
    assert_eq!(board.cell(Point::new(0, 0)), CellValue::Fixed(1));
    assert_eq!(board.empty_count(), 76);
    assert!(is_propagated(&board));
}

#[test]
fn narrow_counts_every_cell_it_fixes() {
    let mut board = SudokuBoard::new(MEDIUM).unwrap();
    board.initial_check().unwrap();
    assert_eq!(board.empty_count(), 32);
    assert_eq!(board.narrow(), Ok(11));
    assert_eq!(board.empty_count(), 21);
    assert!(is_propagated(&board));
}

#[test]
fn narrow_on_a_stalled_board_does_nothing() {
    let mut board = blank();
    board.initial_check().unwrap();
    assert_eq!(board.narrow(), Ok(0));
    assert_eq!(board.empty_count(), 81);
    for i in 0..81 {
        assert_eq!(board.cell(Point::at(i)), CellValue::Candidates(DigitSet::full()));
    }

    let mut board = SudokuBoard::new(HARD).unwrap();
    board.initial_check().unwrap();
    assert_eq!(board.narrow_full(), Ok(false));
    let before: Vec<CellValue> = (0..81).map(|i| board.cell(Point::at(i))).collect();
    assert_eq!(board.narrow(), Ok(0));
    assert_eq!(board.narrow(), Ok(0));
    let after: Vec<CellValue> = (0..81).map(|i| board.cell(Point::at(i))).collect();
    assert_eq!(before, after);
    assert_eq!(board.empty_count(), 60);
}

#[test]
fn narrow_finds_a_unit_without_a_place() {
    // Row 0 lacks a 9: its last three cells are taken, and the 9s of rows 1
    // and 2 stand in its first two boxes.
    let text = "\
xxxxxx123\
9xxxxxxxx\
xxx9xxxxx\
xxxxxxxxx\
xxxxxxxxx\
xxxxxxxxx\
xxxxxxxxx\
xxxxxxxxx\
xxxxxxxxx";
    let mut board = SudokuBoard::new(text).unwrap();
    assert_eq!(board.initial_check(), Ok(()));
    assert_eq!(board.empty_count(), 76);
    assert_eq!(board.narrow(), Err(SudokuError::Unsolvable));

    let mut board = SudokuBoard::new(text).unwrap();
    board.initial_check().unwrap();
    assert_eq!(board.narrow_full(), Err(SudokuError::Unsolvable));

    let mut board = SudokuBoard::new(text).unwrap();
    assert!(!board.solve());
}

#[test]
fn narrow_full_solves_a_puzzle_of_single_places() {
    let mut board = SudokuBoard::new(MEDIUM).unwrap();
    board.initial_check().unwrap();
    assert!(!board.is_solved());
    assert_eq!(board.narrow_full(), Ok(true));
    assert!(board.is_solved());
    assert_eq!(digits(&board), SOLVED);
}

#[test]
fn narrow_full_on_a_solved_board() {
    let mut board = SudokuBoard::new(PUZZLE_CELLS).unwrap();
    board.initial_check().unwrap();
    assert_eq!(board.narrow_full(), Ok(true));
    assert_eq!(digits(&board), SOLVED);
}

#[test]
fn narrow_full_stops_when_nothing_is_left_to_do() {
    let mut board = blank();
    board.initial_check().unwrap();
    assert_eq!(board.narrow_full(), Ok(false));
    assert_eq!(board.empty_count(), 81);
}

#[test]
fn guess_takes_the_first_cell_of_a_blank_board() {
    let mut board = blank();
    board.initial_check().unwrap();
    assert_eq!(board.guess(), (Point::new(0, 0), 1));
}

#[test]
fn guess_prefers_the_cell_with_fewest_candidates() {
    let mut text = String::new();
    for _ in 0..72 {
        text.push('x');
    }
    text.push_str("x234567xx");
    let mut board = SudokuBoard::new(&text).unwrap();
    board.initial_check().unwrap();
    // The open cells of the last row keep 1, 8 and 9; every other cell keeps
    // more. Among the three the first wins, with its first digit.
    assert_eq!(board.cell(Point::new(8, 0)), CellValue::Candidates(set_of(&[1, 8, 9])));
    assert_eq!(board.guess(), (Point::new(8, 0), 1));
}

#[test]
fn guess_keeps_the_first_of_equal_guesses() {
    let mut text = String::from("1234567xx");
    for _ in 0..72 {
        text.push('x');
    }
    let mut board = SudokuBoard::new(&text).unwrap();
    board.initial_check().unwrap();
    // (0, 7) and (0, 8) keep 8 and 9, and either digit in either cell fixes
    // the other cell.
    assert_eq!(board.guess(), (Point::new(0, 7), 8));
}

#[test]
fn guess_prefers_the_digit_that_fixes_more_cells() {
    let mut board = SudokuBoard::new(MEDIUM).unwrap();
    board.initial_check().unwrap();
    assert_eq!(board.guess(), (Point::new(2, 4), 1));
}

#[test]
fn guess_on_a_puzzle_that_has_stalled() {
    let mut board = SudokuBoard::new(HARD).unwrap();
    board.initial_check().unwrap();
    assert_eq!(board.narrow_full(), Ok(false));
    assert_eq!(board.cell(Point::new(7, 6)), CellValue::Candidates(set_of(&[3, 9])));
    assert_eq!(board.guess(), (Point::new(7, 6), 3));
}

#[test]
fn solve_fills_a_single_hole() {
    let mut board = SudokuBoard::new(&with_hole(SOLVED, 0)).unwrap();
    assert!(board.solve());
    assert!(board.is_solved());
    assert_eq!(board.cell(Point::new(0, 0)), CellValue::Fixed(5));
    assert_eq!(digits(&board), SOLVED);
}

#[test]
fn solve_fills_a_hole_forced_by_row_column_and_box() {
    for at in [0usize, 8, 40, 44, 72, 80] {
        let mut board = SudokuBoard::new(&with_hole(SOLVED, at)).unwrap();
        assert!(board.solve());
        let expected = SOLVED.chars().nth(at).unwrap();
        assert_eq!(board.cell(Point::at(at)).to_char(), expected);
        assert!(is_valid_solution(&board));
    }
}

#[test]
fn solve_rejects_two_equal_digits_in_a_row() {
    let mut text = String::from("5xxxxxxx5");
    for _ in 0..72 {
        text.push('x');
    }
    let mut board = SudokuBoard::new(&text).unwrap();
    assert!(!board.solve());
}

#[test]
fn solve_rejects_a_full_board_with_a_repeated_digit() {
    let mut text: Vec<char> = SOLVED.chars().collect();
    text[1] = '5';
    let text: String = text.into_iter().collect();
    let mut board = SudokuBoard::new(&text).unwrap();
    assert!(!board.solve());
    assert!(!board.solve());
}

#[test]
fn solve_accepts_a_full_valid_board() {
    let mut board = SudokuBoard::new(SOLVED).unwrap();
    assert!(board.is_solved());
    assert!(board.solve());
    assert_eq!(digits(&board), SOLVED);
}

#[test]
fn solve_an_easy_puzzle() {
    let mut board = SudokuBoard::new(PUZZLE_CELLS).unwrap();
    assert!(board.solve());
    assert!(board.is_solved());
    assert_eq!(digits(&board), SOLVED);
}

#[test]
fn solve_a_puzzle_that_needs_guesses() {
    let mut board = SudokuBoard::new(HARD).unwrap();
    assert!(board.solve());
    assert!(board.is_solved());
    assert!(is_valid_solution(&board));
    assert_eq!(digits(&board), HARD_SOLVED);
}

#[test]
fn solve_a_blank_board() {
    let mut board = blank();
    assert!(board.solve());
    assert!(board.is_solved());
    assert!(is_valid_solution(&board));
    assert!(board.initialized());
    assert_eq!(
        digits(&board),
        "123456789456789123789123456231564897564897231897231564312645978645978312978312645"
    );
}

#[test]
fn solve_keeps_the_given_digits() {
    let given = SudokuBoard::new(HARD).unwrap();
    let mut board = given.clone();
    assert!(board.solve());
    for i in 0..81 {
        if let CellValue::Fixed(d) = given.cell(Point::at(i)) {
            assert_eq!(board.cell(Point::at(i)), CellValue::Fixed(d));
        }
    }
}

#[test]
fn solve_finds_that_a_puzzle_has_no_solution() {
    // Propagation and narrowing find nothing wrong with this board; only the
    // search does.
    let text = "\
1xxxxxxxx\
xx36xxxxx\
x7xx9x2xx\
x5xxx7xxx\
xxxx457xx\
xxx1xxx3x\
xx1xxxx68\
xx85xxx1x\
x9xxxx4xx";
    let mut board = SudokuBoard::new(text).unwrap();
    board.initial_check().unwrap();
    assert_eq!(board.narrow_full(), Ok(false));
    assert!(!board.solve());

    let mut board = SudokuBoard::new(text).unwrap();
    assert!(!board.solve());
}

#[test]
fn solve_twice_gives_the_same_answer() {
    let mut board = SudokuBoard::new(HARD).unwrap();
    assert!(board.solve());
    let first = digits(&board);
    assert!(board.solve());
    assert_eq!(digits(&board), first);
}

#[test]
fn new_board_is_neither_initialized_nor_contradicted() {
    let board = SudokuBoard::new(HARD).unwrap();
    assert!(!board.initialized());
    assert!(!board.contradicted());
}

#[test]
fn initial_check_failure_leaves_the_cells_as_given() {
    let text = two_givens(0, 1, '1');
    let given = SudokuBoard::new(&text).unwrap();
    let mut board = given.clone();
    assert_eq!(board.initial_check(), Err(SudokuError::Unsolvable));
    assert_eq!(cells(&board), cells(&given));
    assert_eq!(board.empty_count(), 79);
    assert!(!board.is_solved());
    assert!(board.initialized());
    assert!(board.contradicted());
    // The check has run: it does not run again.
    assert_eq!(board.initial_check(), Ok(()));
    assert_eq!(cells(&board), cells(&given));
    assert!(board.contradicted());
    assert!(!board.solve());
    assert_eq!(cells(&board), cells(&given));
}

#[test]
fn initial_check_failure_after_deductions_leaves_the_cells_as_given() {
    // The corner sees 1 to 8 in its row and 9 in its column: it is fixed to
    // its last candidate on the way, and still the cells end as given.
    let mut text = String::from("123456780000000009");
    for _ in 0..63 {
        text.push('0');
    }
    let given = SudokuBoard::new(&text).unwrap();
    let mut board = given.clone();
    assert_eq!(board.initial_check(), Err(SudokuError::Unsolvable));
    assert_eq!(cells(&board), cells(&given));
    assert_eq!(board.cell(Point::new(0, 8)), CellValue::Candidates(DigitSet::full()));
    assert_eq!(board.empty_count(), 72);
    assert!(board.contradicted());
}

#[test]
fn initial_check_success_is_not_contradicted() {
    let mut board = SudokuBoard::new(HARD).unwrap();
    assert_eq!(board.initial_check(), Ok(()));
    assert!(board.initialized());
    assert!(!board.contradicted());
}

#[test]
fn narrow_failure_leaves_the_board_as_it_was() {
    let text = "\
xxxxxx123\
9xxxxxxxx\
xxx9xxxxx\
xxxxxxxxx\
xxxxxxxxx\
xxxxxxxxx\
xxxxxxxxx\
xxxxxxxxx\
xxxxxxxxx";
    let mut board = SudokuBoard::new(text).unwrap();
    board.initial_check().unwrap();
    let before = cells(&board);
    assert_eq!(board.narrow(), Err(SudokuError::Unsolvable));
    assert_eq!(cells(&board), before);
    assert_eq!(board.empty_count(), 76);
    assert!(board.initialized());
    assert!(!board.contradicted());
    assert_eq!(board.narrow_full(), Err(SudokuError::Unsolvable));
    assert_eq!(cells(&board), before);
    assert_eq!(board.empty_count(), 76);
}

#[test]
fn narrow_failure_undoes_the_cells_it_had_fixed() {
    // The pass fixes several cells before it runs into a contradiction.
    let text = "\
534x78xx2\
x7xxxxx48\
xx8xxx56x\
85x7xxxxx\
xx63xxxxx\
xxx9x48x6\
9xxxx72xx\
x8x4xxxx5\
xx5x8xxxx";
    let mut board = SudokuBoard::new(text).unwrap();
    board.initial_check().unwrap();
    assert_eq!(board.empty_count(), 52);
    let before = cells(&board);
    assert_eq!(board.narrow(), Err(SudokuError::Unsolvable));
    assert_eq!(cells(&board), before);
    assert_eq!(board.empty_count(), 52);
    assert!(board.initialized());
    assert!(!board.contradicted());
    assert!(!board.solve());
    assert!(board.contradicted());
}

#[test]
fn solve_failure_leaves_the_cells_as_given() {
    let text = "\
1xxxxxxxx\
xx36xxxxx\
x7xx9x2xx\
x5xxx7xxx\
xxxx457xx\
xxx1xxx3x\
xx1xxxx68\
xx85xxx1x\
x9xxxx4xx";
    let given = SudokuBoard::new(text).unwrap();
    let mut board = given.clone();
    assert!(!board.solve());
    assert_eq!(cells(&board), cells(&given));
    assert_eq!(board.empty_count(), 60);
    assert!(!board.is_solved());
    assert!(board.initialized());
    assert!(board.contradicted());
    assert_eq!(board.render(), given.render());
    assert!(!board.solve());
    assert_eq!(cells(&board), cells(&given));
}

#[test]
fn solve_success_is_not_contradicted() {
    let mut board = SudokuBoard::new(HARD).unwrap();
    assert!(board.solve());
    assert!(board.initialized());
    assert!(!board.contradicted());
}

#[test]
fn solve_failure_on_a_checked_board_leaves_it_as_it_was() {
    let text = "\
1xxxxxxxx\
xx36xxxxx\
x7xx9x2xx\
x5xxx7xxx\
xxxx457xx\
xxx1xxx3x\
xx1xxxx68\
xx85xxx1x\
x9xxxx4xx";
    let mut board = SudokuBoard::new(text).unwrap();
    board.initial_check().unwrap();
    let before = cells(&board);
    assert!(!board.solve());
    assert_eq!(cells(&board), before);
    assert!(board.contradicted());
}

#[test]
fn failed_solve_is_not_reported_solved() {
    // No given digit repeats in a unit, and yet there is no solution.
    for text in [
        "x3x6x8xxxxx217x3x81983425xxx5xx61xx34xx853x91x13924x5696xxx728428741963x3xx286xx9",
        "5x8x7xx1267x19534x19xxxx56x8xxx6142xx26853x9x71xx24x569x15x728x287419x35x45286x7x",
        "54x6789126721953xxx983x2567859x614xx42x85x79xxx39x4xx69615x7284x8741963xxxxx8617x",
    ] {
        let given = SudokuBoard::new(text).unwrap();
        let mut board = given.clone();
        assert!(!board.solve());
        assert!(!board.is_solved());
        assert_eq!(cells(&board), cells(&given));
    }
}

#[test]
fn two_equal_givens_in_a_unit_are_never_reported_solved() {
    for (first, second) in [(0usize, 1usize), (0, 8), (0, 72), (0, 45), (0, 10), (0, 20), (40, 41)] {
        let text = two_givens(first, second, '5');
        let given = SudokuBoard::new(&text).unwrap();
        let mut board = given.clone();
        assert!(!board.solve());
        assert!(!board.is_solved());
        assert_eq!(board.empty_count(), 79);
        assert_eq!(cells(&board), cells(&given));
    }
}

#[test]
fn two_equal_givens_clash_exactly_when_they_are_adjacent() {
    let around = adjacent_cells(Point::new(0, 0));
    for q in 1..81usize {
        let text = two_givens(0, q, '7');
        let mut board = SudokuBoard::new(&text).unwrap();
        let solved = board.solve();
        assert_eq!(solved, !around.contains(&Point::at(q)));
        assert_eq!(board.is_solved(), solved);
        if solved {
            assert!(is_valid_solution(&board));
            assert_eq!(board.cell(Point::new(0, 0)), CellValue::Fixed(7));
            assert_eq!(board.cell(Point::at(q)), CellValue::Fixed(7));
        }
    }
}

#[test]
fn a_cell_that_sees_every_digit_makes_the_board_unsolvable() {
    let mut text = String::from("123456780000000009");
    for _ in 0..63 {
        text.push('0');
    }
    for _ in 0..6 {
        let mut board = SudokuBoard::new(&text).unwrap();
        assert!(!board.solve());
        assert!(!board.is_solved());
    }
}

#[test]
fn a_complete_board_with_a_repeated_digit_stays_complete() {
    let mut text: Vec<char> = SOLVED.chars().collect();
    text[1] = '5';
    let text: String = text.into_iter().collect();
    let given = SudokuBoard::new(&text).unwrap();
    let mut board = given.clone();
    assert!(!board.solve());
    assert_eq!(board.empty_count(), 0);
    assert!(board.is_solved());
    assert!(board.contradicted());
    assert_eq!(cells(&board), cells(&given));
}
