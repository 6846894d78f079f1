//! The state of a single cell: a fixed digit, or the digits still possible.

use crate::digits::DigitSet;
use vstd::prelude::*;

verus! {

/// The glyph that stands for an undetermined cell in rendered output.
pub const PLACEHOLDER: char = '0';

/// What one elimination did to a cell.
#[derive(Clone, Copy, Debug, PartialEq, Eq)]
pub enum Elimination {
    /// The digit was the cell's fixed digit, or its last candidate.
    Contradiction,
    /// The digit was not possible in the cell before; nothing changed.
    AlreadyEliminated,
    /// The digit was removed, and at least two candidates remain.
    Eliminated,
    /// The digit was removed, and the one candidate left became the cell's digit.
    BecameFixed(u8),
}

/// A cell of the grid.
#[derive(Clone, Copy, Debug, PartialEq, Eq)]
pub enum CellValue {
    /// The cell's digit is determined.
    Fixed(u8),
    /// The cell is undetermined; these digits have not been ruled out.
    Candidates(DigitSet),
}

impl CellValue {
    /// Whether the cell can still hold the digit `d`.
    pub open spec fn allows(self, d: int) -> bool {
        match self {
            CellValue::Fixed(x) => d == x as int,
            CellValue::Candidates(s) => s@.contains(d),
        }
    }

    /// Whether the cell is undetermined.
    pub open spec fn is_open(self) -> bool {
        self is Candidates
    }

    /// A fixed cell holds a digit, and an undetermined one has at least two
    /// candidates.
    pub open spec fn proper(self) -> bool {
        match self {
            CellValue::Fixed(x) => 1 <= x <= 9,
            CellValue::Candidates(s) => s@.len() >= 2,
        }
    }

    /// The number of candidates of an undetermined cell; zero for a fixed one.
    pub open spec fn width(self) -> nat {
        match self {
            CellValue::Fixed(_) => 0,
            CellValue::Candidates(s) => s@.len(),
        }
    }

    /// The cell that a character of board text denotes, if it denotes one.
    pub open spec fn parsed(c: char) -> Option<CellValue> {
        if '1' <= c <= '9' {
            Some(CellValue::Fixed((c as int - '0' as int) as u8))
        } else if c == '0' || ('a' <= c <= 'z') || ('A' <= c <= 'Z') {
            Some(CellValue::Candidates(DigitSet::all()))
        } else {
            None
        }
    }

    /// The character that shows the cell in rendered output.
    pub open spec fn glyph(self) -> char {
        match self {
            CellValue::Fixed(x) => if 1 <= x <= 9 {
                (x as int + '0' as int) as char
            } else {
                '?'
            },
            CellValue::Candidates(_) => PLACEHOLDER,
        }
    }

    /// What eliminating `v` from the cell signals.
    pub open spec fn outcome(self, v: int) -> Elimination {
        match self {
            CellValue::Fixed(x) => if x as int == v {
                Elimination::Contradiction
            } else {
                Elimination::AlreadyEliminated
            },
            CellValue::Candidates(s) => if !s@.contains(v) {
                Elimination::AlreadyEliminated
            } else if s@.remove(v).len() == 0 {
                Elimination::Contradiction
            } else if s@.remove(v).len() == 1 {
                Elimination::BecameFixed(s@.remove(v).choose() as u8)
            } else {
                Elimination::Eliminated
            },
        }
    }

    /// The cell after `v` has been eliminated from it.
    pub open spec fn without(self, v: int) -> CellValue {
        match self {
            CellValue::Fixed(_) => self,
            CellValue::Candidates(s) => if !s@.contains(v) {
                self
            } else if s@.remove(v).len() == 1 {
                CellValue::Fixed(s@.remove(v).choose() as u8)
            } else {
                CellValue::Candidates(s.minus(v))
            },
        }
    }

    /// The proper cell that allows exactly the digits among the members of
    /// `s`, where there is at least one.
    pub open spec fn of(s: Set<int>) -> CellValue {
        if DigitSet::of(s)@.len() == 1 {
            CellValue::Fixed(DigitSet::of(s)@.choose() as u8)
        } else {
            CellValue::Candidates(DigitSet::of(s))
        }
    }

    /// `of(s)` is proper and allows the digits of `s`, when `s` holds a digit.
    pub proof fn lemma_of(s: Set<int>, d: int)
        requires
            1 <= d <= 9,
            s.contains(d),
        ensures
            Self::of(s).proper(),
            forall|e: int| #[trigger] Self::of(s).allows(e) <==> 1 <= e <= 9 && s.contains(e),
    {
        let t = DigitSet::of(s);
        DigitSet::lemma_of(s);
        t.lemma_bounded();
        assert(t@.contains(d));
        if t@.len() == 1 {
            lemma_sole_member(t@, d);
        } else {
            if t@.len() == 0 {
                assert(t@.remove(d).len() + 1 == t@.len());
            }
        }
        assert forall|e: int| #[trigger] Self::of(s).allows(e) <==> 1 <= e <= 9 && s.contains(
            e,
        ) by {
            assert(t@.contains(e) <==> 1 <= e <= 9 && s.contains(e));
        }
    }

    /// A proper cell allows some digit, and nothing but digits.
    pub proof fn lemma_allows(self)
        requires
            self.proper(),
        ensures
            exists|d: int| self.allows(d),
            forall|d: int| #[trigger] self.allows(d) ==> 1 <= d <= 9,
    {
        match self {
            CellValue::Fixed(x) => {
                assert(self.allows(x as int));
            },
            CellValue::Candidates(s) => {
                s.lemma_bounded();
                lemma_second_member(s@, 0);
                let e = choose|e: int| s@.contains(e) && e != 0;
                assert(self.allows(e));
            },
        }
    }

    /// Reads one character of board text: a digit from 1 to 9 is a fixed cell,
    /// a letter or a zero an undetermined one, and any other character is no
    /// cell at all.
    pub fn parse(c: char) -> (r: Option<CellValue>)
        ensures
            r == Self::parsed(c),
    {
        if c >= '1' && c <= '9' {
            Some(CellValue::Fixed(digit_of(c)))
        } else if c == '0' || (c >= 'a' && c <= 'z') || (c >= 'A' && c <= 'Z') {
            Some(CellValue::Candidates(DigitSet::full()))
        } else {
            None
        }
    }

    /// Rules the digit `v` out of the cell.
    ///
    /// A fixed cell never changes: it signals a contradiction when `v` is its
    /// digit. An undetermined cell loses `v`; when one candidate is left, the
    /// cell becomes fixed to it.
    pub fn eliminate(&mut self, v: u8) -> (r: Elimination)
        ensures
            r == old(self).outcome(v as int),
            *final(self) == old(self).without(v as int),
    {
        match *self {
            CellValue::Fixed(x) => {
                if x == v {
                    Elimination::Contradiction
                } else {
                    Elimination::AlreadyEliminated
                }
            },
            CellValue::Candidates(s) => {
                if !s.contains(v) {
                    return Elimination::AlreadyEliminated;
                }
                let mut rest = s;
                rest.remove(v);
                let n = rest.len();
                proof {
                    rest.lemma_bounded();
                }
                match rest.least() {
                    None => {
                        *self = CellValue::Candidates(rest);
                        Elimination::Contradiction
                    },
                    Some(w) => {
                        if n == 1 {
                            proof {
                                lemma_sole_member(rest@, w as int);
                            }
                            *self = CellValue::Fixed(w);
                            Elimination::BecameFixed(w)
                        } else {
                            *self = CellValue::Candidates(rest);
                            Elimination::Eliminated
                        }
                    },
                }
            },
        }
    }

    /// The character that shows the cell: its digit, or the placeholder.
    pub fn to_char(&self) -> (c: char)
        ensures
            c == self.glyph(),
    {
        match *self {
            CellValue::Fixed(x) => digit_char(x),
            CellValue::Candidates(_) => PLACEHOLDER,
        }
    }

    /// A cell as restrictive as a fixed one is that fixed cell.
    pub proof fn lemma_pinned(self, d: int)
        requires
            self.proper(),
            forall|e: int| #[trigger] self.allows(e) ==> e == d,
        ensures
            1 <= d <= 9,
            self == CellValue::Fixed(d as u8),
    {
        match self {
            CellValue::Fixed(x) => {
                assert(self.allows(x as int));
                assert(x as int == d);
            },
            CellValue::Candidates(s) => {
                s.lemma_bounded();
                lemma_second_member(s@, d);
                let e = choose|e: int| s@.contains(e) && e != d;
                assert(self.allows(e));
            },
        }
    }

    /// Proper cells that allow the same digits are equal.
    pub proof fn lemma_same(self, other: CellValue)
        requires
            self.proper(),
            other.proper(),
            forall|d: int| self.allows(d) == other.allows(d),
        ensures
            self == other,
    {
        match self {
            CellValue::Fixed(x) => {
                assert(self.allows(x as int));
                assert forall|e: int| other.allows(e) implies e == x as int by {
                    assert(self.allows(e));
                }
                other.lemma_pinned(x as int);
            },
            CellValue::Candidates(s) => {
                match other {
                    CellValue::Fixed(y) => {
                        assert(other.allows(y as int));
                        assert forall|e: int| self.allows(e) implies e == y as int by {
                            assert(other.allows(e));
                        }
                        self.lemma_pinned(y as int);
                    },
                    CellValue::Candidates(t) => {
                        assert forall|d: int| s@.contains(d) == t@.contains(d) by {
                            assert(self.allows(d) == other.allows(d));
                        }
                        s.lemma_same(t);
                    },
                }
            },
        }
    }

    /// Eliminating from a proper cell contradicts only a cell fixed to that
    /// digit; otherwise the cell stays proper and allows what it allowed
    /// before, except the eliminated digit.
    pub proof fn lemma_without(self, v: int)
        requires
            self.proper(),
        ensures
            self.outcome(v) == Elimination::Contradiction <==> self == CellValue::Fixed(v as u8)
                && 1 <= v <= 9,
            self.outcome(v) != Elimination::Contradiction ==> self.without(v).proper(),
            self.outcome(v) != Elimination::Contradiction ==> forall|d: int|
                self.without(v).allows(d) == (self.allows(d) && d != v),
            self.without(v).width() <= self.width(),
            self.is_open() && self.allows(v) ==> self.without(v).width() < self.width(),
            !self.allows(v) ==> self.without(v) == self,
            self is Fixed ==> self.without(v) == self,
            forall|w: u8| self.outcome(v) == Elimination::BecameFixed(w) <==> self.is_open()
                && self.without(v) == CellValue::Fixed(w),
            self.without(v).is_open() ==> self.is_open(),
    {
        match self {
            CellValue::Fixed(x) => {},
            CellValue::Candidates(s) => {
                s.lemma_bounded();
                s.lemma_minus(v);
                if s@.contains(v) {
                    let rest = s@.remove(v);
                    if rest.len() == 1 {
                        let w = rest.choose();
                        assert(rest.contains(w)) by {
                            if rest =~= Set::<int>::empty() {
                            } else {
                                let e = choose|e: int| rest.contains(e);
                                assert(rest.contains(e));
                            }
                        }
                        lemma_sole_member(rest, w);
                        assert forall|d: int| self.without(v).allows(d) == (self.allows(d) && d
                            != v) by {
                            if rest.contains(d) {
                                lemma_sole_member(rest, d);
                            }
                        }
                    }
                }
            },
        }
    }
}

/// Eliminating one of the two candidates of a cell fixes the cell to the
/// other.
pub proof fn lemma_eliminate_from_pair(s: DigitSet, v: int, w: int)
    requires
        s@ == set![v, w],
        v != w,
    ensures
        1 <= w <= 9,
        CellValue::Candidates(s).outcome(v) == Elimination::BecameFixed(w as u8),
        CellValue::Candidates(s).without(v) == CellValue::Fixed(w as u8),
{
    s.lemma_bounded();
    assert(s@.contains(v) && s@.contains(w));
    let rest = s@.remove(v);
    assert(rest =~= set![w]);
    assert(rest.len() == 1);
    lemma_sole_member(rest, w);
}

/// Eliminating a candidate from a cell with three or more leaves the cell
/// undetermined, with exactly that candidate less.
pub proof fn lemma_eliminate_from_more(s: DigitSet, v: int)
    requires
        s@.contains(v),
        s@.len() > 2,
    ensures
        CellValue::Candidates(s).outcome(v) == Elimination::Eliminated,
        CellValue::Candidates(s).without(v) == CellValue::Candidates(s.minus(v)),
        s.minus(v)@ == s@.remove(v),
        s.minus(v)@.len() == s@.len() - 1,
{
    s.lemma_bounded();
    s.lemma_minus(v);
}

/// Eliminating from a fixed cell never changes it: its own digit is a
/// contradiction, and any other digit was eliminated already.
pub proof fn lemma_eliminate_from_fixed(x: u8, v: int)
    ensures
        CellValue::Fixed(x).without(v) == CellValue::Fixed(x),
        v == x ==> CellValue::Fixed(x).outcome(v) == Elimination::Contradiction,
        v != x ==> CellValue::Fixed(x).outcome(v) == Elimination::AlreadyEliminated,
{
}

/// The digit that a character between '1' and '9' writes.
fn digit_of(c: char) -> (d: u8)
    requires
        '1' <= c <= '9',
    ensures
        d as int == c as int - '0' as int,
        1 <= d <= 9,
{
    ((c as u32) - ('0' as u32)) as u8
}

/// The character that writes a digit; a question mark for anything else.
fn digit_char(d: u8) -> (c: char)
    ensures
        c == CellValue::Fixed(d).glyph(),
{
    match d {
        1 => '1',
        2 => '2',
        3 => '3',
        4 => '4',
        5 => '5',
        6 => '6',
        7 => '7',
        8 => '8',
        9 => '9',
        _ => '?',
    }
}

/// In a set of size one, a member is the chosen member.
pub proof fn lemma_sole_member(s: Set<int>, w: int)
    requires
        s.finite(),
        s.len() == 1,
        s.contains(w),
    ensures
        s.choose() == w,
        forall|e: int| s.contains(e) <==> e == w,
{
    assert forall|e: int| s.contains(e) implies e == w by {
        if e != w {
            assert(s.remove(w).contains(e));
            assert(s.remove(w).len() == 0);
        }
    }
    assert(s.contains(s.choose()));
}

/// A set of two or more members has a member other than `d`.
pub proof fn lemma_second_member(s: Set<int>, d: int)
    requires
        s.finite(),
        s.len() >= 2,
    ensures
        exists|e: int| s.contains(e) && e != d,
{
    let a = s.choose();
    assert(s.contains(a)) by {
        if s.len() != 0 {
            assert(!(s =~= Set::<int>::empty()));
        }
    }
    if a == d {
        let rest = s.remove(a);
        assert(rest.len() >= 1);
        let b = rest.choose();
        assert(rest.contains(b)) by {
            assert(!(rest =~= Set::<int>::empty()));
        }
        assert(s.contains(b) && b != d);
    }
}

} // verus!
