//! Sets of sudoku digits.

use vstd::prelude::*;
use vstd::set_lib::*;

verus! {

/// The nine digits a cell can hold.
pub open spec fn all_digits() -> Set<int> {
    Set::new(|d: int| 1 <= d <= 9)
}

/// A set of digits between 1 and 9.
#[derive(Clone, Copy, Debug, PartialEq, Eq)]
pub struct DigitSet {
    present: [bool; 9],
}

impl View for DigitSet {
    type V = Set<int>;

    closed spec fn view(&self) -> Set<int> {
        Set::new(|d: int| 1 <= d <= 9 && self.present[d - 1])
    }
}

impl DigitSet {
    /// The set that holds every digit.
    pub closed spec fn all() -> DigitSet {
        DigitSet { present: vstd::array::spec_array_fill_for_copy_type::<bool, 9>(true) }
    }

    /// The set that holds no digit.
    pub closed spec fn none() -> DigitSet {
        DigitSet { present: vstd::array::spec_array_fill_for_copy_type::<bool, 9>(false) }
    }

    /// This set with `d` taken out.
    pub closed spec fn minus(self, d: int) -> DigitSet {
        if 1 <= d <= 9 {
            DigitSet { present: vstd::array::spec_array_update(self.present, d - 1, false) }
        } else {
            self
        }
    }

    /// This set with `d` put in.
    pub closed spec fn plus(self, d: int) -> DigitSet {
        if 1 <= d <= 9 {
            DigitSet { present: vstd::array::spec_array_update(self.present, d - 1, true) }
        } else {
            self
        }
    }

    /// The members of this set that are at most `k`.
    spec fn upto(self, k: int) -> Set<int> {
        Set::new(|d: int| 1 <= d <= k && self.present[d - 1])
    }

    /// Every digit set is finite and holds only digits.
    pub proof fn lemma_bounded(self)
        ensures
            self@.finite(),
            self@.len() <= 9,
            self@.subset_of(all_digits()),
            forall|d: int| self@.contains(d) ==> 1 <= d <= 9,
    {
        lemma_all_digits();
        lemma_len_subset(self@, all_digits());
    }

    /// Two digit sets with the same members are the same value.
    pub proof fn lemma_same(self, other: DigitSet)
        requires
            self@ =~= other@,
        ensures
            self == other,
    {
        assert forall|i: int| 0 <= i < 9 implies self.present@[i] == other.present@[i] by {
            assert(self@.contains(i + 1) == other@.contains(i + 1));
        }
        assert(self.present =~= other.present);
    }

    pub proof fn lemma_all()
        ensures
            Self::all()@ == all_digits(),
            Self::all()@.len() == 9,
    {
        lemma_all_digits();
        assert(Self::all()@ =~= all_digits());
    }

    pub proof fn lemma_none()
        ensures
            Self::none()@ == Set::<int>::empty(),
    {
        assert(Self::none()@ =~= Set::<int>::empty());
    }

    pub proof fn lemma_minus(self, d: int)
        ensures
            self.minus(d)@ == self@.remove(d),
    {
        assert(self.minus(d)@ =~= self@.remove(d));
    }

    pub proof fn lemma_plus(self, d: int)
        ensures
            1 <= d <= 9 ==> self.plus(d)@ == self@.insert(d),
            !(1 <= d <= 9) ==> self.plus(d) == self,
    {
        if 1 <= d <= 9 {
            assert(self.plus(d)@ =~= self@.insert(d));
        }
    }

    /// The digit set that holds the digits among the members of `s`.
    pub closed spec fn of(s: Set<int>) -> DigitSet {
        Self::built(s, 9)
    }

    /// The digit set that holds the digits up to `k` among the members of `s`.
    spec fn built(s: Set<int>, k: int) -> DigitSet
        decreases k,
    {
        if k <= 0 {
            Self::none()
        } else if s.contains(k) {
            Self::built(s, k - 1).plus(k)
        } else {
            Self::built(s, k - 1)
        }
    }

    proof fn lemma_built(s: Set<int>, k: int)
        requires
            0 <= k <= 9,
        ensures
            Self::built(s, k)@ == Set::new(|d: int| 1 <= d <= k && s.contains(d)),
        decreases k,
    {
        if k <= 0 {
            Self::lemma_none();
            assert(Self::built(s, k)@ =~= Set::new(|d: int| 1 <= d <= k && s.contains(d)));
        } else {
            Self::lemma_built(s, k - 1);
            Self::built(s, k - 1).lemma_plus(k);
            assert(Self::built(s, k)@ =~= Set::new(|d: int| 1 <= d <= k && s.contains(d)));
        }
    }

    /// `of(s)` holds exactly the digits that are members of `s`.
    pub proof fn lemma_of(s: Set<int>)
        ensures
            forall|d: int| #[trigger] Self::of(s)@.contains(d) <==> 1 <= d <= 9 && s.contains(d),
    {
        Self::lemma_built(s, 9);
    }

    proof fn lemma_upto(self, k: int)
        requires
            0 <= k <= 9,
        ensures
            self.upto(k).finite(),
            self.upto(k).len() <= k,
            k == 9 ==> self.upto(k) == self@,
            k < 9 && self.present[k] ==> self.upto(k + 1) == self.upto(k).insert(k + 1),
            k < 9 && !self.present[k] ==> self.upto(k + 1) == self.upto(k),
        decreases k,
    {
        if k == 0 {
            assert(self.upto(0) =~= Set::<int>::empty());
        } else {
            self.lemma_upto(k - 1);
        }
        if k == 9 {
            assert(self.upto(k) =~= self@);
        } else if self.present[k] {
            assert(self.upto(k + 1) =~= self.upto(k).insert(k + 1));
        } else {
            assert(self.upto(k + 1) =~= self.upto(k));
        }
    }

    /// The set of all nine digits.
    pub fn full() -> (s: DigitSet)
        ensures
            s == Self::all(),
            s@ == all_digits(),
    {
        proof {
            Self::lemma_all();
        }
        DigitSet { present: [true; 9] }
    }

    /// The set without any digit.
    pub fn empty() -> (s: DigitSet)
        ensures
            s == Self::none(),
            s@ == Set::<int>::empty(),
    {
        proof {
            Self::lemma_none();
        }
        DigitSet { present: [false; 9] }
    }

    /// Whether `d` is a member.
    pub fn contains(&self, d: u8) -> (b: bool)
        ensures
            b == self@.contains(d as int),
    {
        1 <= d && d <= 9 && self.present[(d - 1) as usize]
    }

    /// Takes `d` out of the set; a `d` that is not a member changes nothing.
    pub fn remove(&mut self, d: u8)
        ensures
            *final(self) == old(self).minus(d as int),
            final(self)@ == old(self)@.remove(d as int),
    {
        proof {
            self.lemma_minus(d as int);
        }
        if 1 <= d && d <= 9 {
            self.present[(d - 1) as usize] = false;
            assert(self.present =~= old(self).minus(d as int).present);
        }
    }

    /// Puts `d` into the set; a `d` that is no digit changes nothing.
    pub fn insert(&mut self, d: u8)
        ensures
            *final(self) == old(self).plus(d as int),
            1 <= d <= 9 ==> final(self)@ == old(self)@.insert(d as int),
            !(1 <= d <= 9) ==> *final(self) == *old(self),
    {
        proof {
            self.lemma_plus(d as int);
        }
        if 1 <= d && d <= 9 {
            self.present[(d - 1) as usize] = true;
            assert(self.present =~= old(self).plus(d as int).present);
        }
    }

    /// The number of members.
    pub fn len(&self) -> (n: usize)
        ensures
            n == self@.len(),
            n <= 9,
    {
        let mut n: usize = 0;
        let mut k: usize = 0;
        proof {
            self.lemma_upto(0);
        }
        while k < 9
            invariant
                k <= 9,
                n <= k,
                self.upto(k as int).finite(),
                n == self.upto(k as int).len(),
            decreases 9 - k,
        {
            proof {
                self.lemma_upto(k as int);
            }
            if self.present[k] {
                n = n + 1;
            }
            k = k + 1;
        }
        proof {
            self.lemma_upto(9);
        }
        n
    }

    /// The smallest member, if there is any.
    pub fn least(&self) -> (r: Option<u8>)
        ensures
            match r {
                Some(d) => self@.contains(d as int) && forall|e: int|
                    self@.contains(e) ==> d <= e,
                None => self@ == Set::<int>::empty(),
            },
    {
        let mut k: usize = 0;
        while k < 9
            invariant
                k <= 9,
                forall|e: int| 1 <= e <= k ==> !self@.contains(e),
            decreases 9 - k,
        {
            if self.present[k] {
                return Some((k + 1) as u8);
            }
            k = k + 1;
        }
        assert(self@ =~= Set::<int>::empty());
        None
    }
}

/// The nine digits form a finite set of size nine.
pub proof fn lemma_all_digits()
    ensures
        all_digits().finite(),
        all_digits().len() == 9,
{
    lemma_int_range(1, 10);
    assert(all_digits() =~= set_int_range(1, 10));
}

} // verus!
