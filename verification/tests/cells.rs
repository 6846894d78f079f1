use rsudoku::cell::{CellValue, Elimination, PLACEHOLDER};
use rsudoku::digits::DigitSet;

fn set_of(digits: &[u8]) -> DigitSet {
    let mut s = DigitSet::empty();
    for d in digits {
        s.insert(*d);
    }
    s
}

#[test]
fn full_set_holds_all_nine_digits() {
    let s = DigitSet::full();
    assert_eq!(s.len(), 9);
    for d in 1..=9u8 {
        assert!(s.contains(d));
    }
    assert!(!s.contains(0));
    assert!(!s.contains(10));
    assert_eq!(s.least(), Some(1));
}

#[test]
fn empty_set_holds_nothing() {
    let s = DigitSet::empty();
    assert_eq!(s.len(), 0);
    for d in 0..=10u8 {
        assert!(!s.contains(d));
    }
    assert_eq!(s.least(), None);
}

#[test]
fn remove_takes_one_digit_out() {
    let mut s = DigitSet::full();
    s.remove(4);
    assert_eq!(s.len(), 8);
    assert!(!s.contains(4));
    assert!(s.contains(3));
    assert!(s.contains(5));
    s.remove(4);
    assert_eq!(s.len(), 8);
    s.remove(0);
    s.remove(10);
    assert_eq!(s.len(), 8);
    s.remove(1);
    assert_eq!(s.least(), Some(2));
}

#[test]
fn insert_puts_one_digit_in() {
    let mut s = DigitSet::empty();
    s.insert(7);
    assert_eq!(s.len(), 1);
    assert!(s.contains(7));
    s.insert(7);
    assert_eq!(s.len(), 1);
    s.insert(2);
    assert_eq!(s.len(), 2);
    assert_eq!(s.least(), Some(2));
    assert_eq!(s, set_of(&[2, 7]));
    s.insert(0);
    s.insert(10);
    assert_eq!(s, set_of(&[2, 7]));
}

#[test]
fn sets_with_the_same_members_are_equal() {
    let mut a = DigitSet::full();
    for d in 1..=9u8 {
        if d != 3 && d != 8 {
            a.remove(d);
        }
    }
    assert_eq!(a, set_of(&[8, 3]));
    assert_ne!(a, set_of(&[3]));
}

#[test]
fn parse_reads_digits_as_fixed_cells() {
    assert_eq!(CellValue::parse('1'), Some(CellValue::Fixed(1)));
    assert_eq!(CellValue::parse('5'), Some(CellValue::Fixed(5)));
    assert_eq!(CellValue::parse('9'), Some(CellValue::Fixed(9)));
}

#[test]
fn parse_reads_letters_and_zero_as_open_cells() {
    let open = Some(CellValue::Candidates(DigitSet::full()));
    assert_eq!(CellValue::parse('0'), open);
    assert_eq!(CellValue::parse('a'), open);
    assert_eq!(CellValue::parse('z'), open);
    assert_eq!(CellValue::parse('A'), open);
    assert_eq!(CellValue::parse('Z'), open);
    assert_eq!(CellValue::parse('x'), open);
}

#[test]
fn parse_passes_over_other_characters() {
    for c in [' ', '\n', '\t', '.', '_', '-', '|', ',', '/', ':', '@', '[', '`', '{', 'é', '٣'] {
        assert_eq!(CellValue::parse(c), None);
    }
}

#[test]
fn eliminate_from_two_candidates_fixes_the_other() {
    let mut cell = CellValue::Candidates(set_of(&[3, 7]));
    assert_eq!(cell.eliminate(3), Elimination::BecameFixed(7));
    assert_eq!(cell, CellValue::Fixed(7));

    let mut cell = CellValue::Candidates(set_of(&[3, 7]));
    assert_eq!(cell.eliminate(7), Elimination::BecameFixed(3));
    assert_eq!(cell, CellValue::Fixed(3));
}

#[test]
fn eliminate_from_more_candidates_shrinks_the_set_by_one() {
    let mut cell = CellValue::Candidates(set_of(&[2, 5, 9]));
    assert_eq!(cell.eliminate(5), Elimination::Eliminated);
    assert_eq!(cell, CellValue::Candidates(set_of(&[2, 9])));

    let mut cell = CellValue::Candidates(DigitSet::full());
    assert_eq!(cell.eliminate(1), Elimination::Eliminated);
    match cell {
        CellValue::Candidates(s) => {
            assert_eq!(s.len(), 8);
            assert!(!s.contains(1));
        }
        CellValue::Fixed(_) => panic!("the cell must stay undetermined"),
    }
}

#[test]
fn eliminate_absent_candidate_changes_nothing() {
    let mut cell = CellValue::Candidates(set_of(&[2, 5, 9]));
    assert_eq!(cell.eliminate(4), Elimination::AlreadyEliminated);
    assert_eq!(cell, CellValue::Candidates(set_of(&[2, 5, 9])));
    assert_eq!(cell.eliminate(0), Elimination::AlreadyEliminated);
    assert_eq!(cell.eliminate(10), Elimination::AlreadyEliminated);
    assert_eq!(cell, CellValue::Candidates(set_of(&[2, 5, 9])));
}

#[test]
fn eliminate_own_digit_from_fixed_cell_contradicts() {
    let mut cell = CellValue::Fixed(6);
    assert_eq!(cell.eliminate(6), Elimination::Contradiction);
    assert_eq!(cell, CellValue::Fixed(6));
}

#[test]
fn eliminate_other_digit_from_fixed_cell_changes_nothing() {
    let mut cell = CellValue::Fixed(6);
    for v in 1..=9u8 {
        if v != 6 {
            assert_eq!(cell.eliminate(v), Elimination::AlreadyEliminated);
            assert_eq!(cell, CellValue::Fixed(6));
        }
    }
}

#[test]
fn eliminate_last_candidate_contradicts() {
    let mut cell = CellValue::Candidates(set_of(&[4]));
    assert_eq!(cell.eliminate(4), Elimination::Contradiction);
}

#[test]
fn cells_show_as_digit_or_placeholder() {
    assert_eq!(PLACEHOLDER, '0');
    assert_eq!(CellValue::Fixed(1).to_char(), '1');
    assert_eq!(CellValue::Fixed(9).to_char(), '9');
    assert_eq!(CellValue::Candidates(DigitSet::full()).to_char(), PLACEHOLDER);
    assert_eq!(CellValue::Candidates(set_of(&[1, 2])).to_char(), PLACEHOLDER);
}
