use vstd::prelude::*;

use crate::cards::spec_suit_from_index;
use crate::cards::suit_from_index;
use crate::cards::suit_index;
use crate::cards::Suit;

verus! {

/// Total map from the four suits to a value, one slot per suit, iterated in
/// suit enumeration order.
#[derive(Clone, Copy, PartialEq, Eq, Structural, Debug)]
pub struct SuitMap<T> {
    pub clubs: T,
    pub diamonds: T,
    pub hearts: T,
    pub spades: T,
}

impl<T> SuitMap<T> {
    /// The value this map holds for a suit.
    pub open spec fn spec_get(self, s: Suit) -> T {
        match s {
            Suit::Clubs => self.clubs,
            Suit::Diamonds => self.diamonds,
            Suit::Hearts => self.hearts,
            Suit::Spades => self.spades,
        }
    }

    /// The map with the slot for `s` replaced by `v`.
    pub open spec fn spec_set(self, s: Suit, v: T) -> SuitMap<T> {
        match s {
            Suit::Clubs => SuitMap { clubs: v, ..self },
            Suit::Diamonds => SuitMap { diamonds: v, ..self },
            Suit::Hearts => SuitMap { hearts: v, ..self },
            Suit::Spades => SuitMap { spades: v, ..self },
        }
    }

    pub fn new(clubs: T, diamonds: T, hearts: T, spades: T) -> (r: SuitMap<T>)
        ensures
            r == (SuitMap { clubs, diamonds, hearts, spades }),
    {
        SuitMap { clubs, diamonds, hearts, spades }
    }

    pub fn get(&self, s: Suit) -> (r: &T)
        ensures
            *r == self.spec_get(s),
    {
        match s {
            Suit::Clubs => &self.clubs,
            Suit::Diamonds => &self.diamonds,
            Suit::Hearts => &self.hearts,
            Suit::Spades => &self.spades,
        }
    }

    pub fn set(&mut self, s: Suit, v: T)
        ensures
            *final(self) == old(self).spec_set(s, v),
    {
        match s {
            Suit::Clubs => self.clubs = v,
            Suit::Diamonds => self.diamonds = v,
            Suit::Hearts => self.hearts = v,
            Suit::Spades => self.spades = v,
        }
    }

    /// A new map holding `f` of every slot, keyed as before.
    pub fn map<U, F: Fn(T) -> U>(self, f: F) -> (r: SuitMap<U>)
        requires
            forall|x: T| #[trigger] f.requires((x,)),
        ensures
            f.ensures((self.clubs,), r.clubs),
            f.ensures((self.diamonds,), r.diamonds),
            f.ensures((self.hearts,), r.hearts),
            f.ensures((self.spades,), r.spades),
    {
        SuitMap { clubs: f(self.clubs), diamonds: f(self.diamonds), hearts: f(self.hearts), spades: f(self.spades) }
    }
}

impl<T: Copy> SuitMap<T> {
    /// A map holding the same value for every suit.
    pub fn new_copied(value: T) -> (r: SuitMap<T>)
        ensures
            r == (SuitMap { clubs: value, diamonds: value, hearts: value, spades: value }),
            forall|s: Suit| r.spec_get(s) == value,
    {
        SuitMap { clubs: value, diamonds: value, hearts: value, spades: value }
    }

    /// The four (suit, value) pairs in suit enumeration order.
    pub fn iter(&self) -> (r: Vec<(Suit, T)>)
        ensures
            r@.len() == 4,
            forall|i: int|
                0 <= i < 4 ==> #[trigger] r@[i] == (
                spec_suit_from_index(i),
                self.spec_get(spec_suit_from_index(i)),
            ),
    {
        let mut r: Vec<(Suit, T)> = Vec::new();
        let mut i: u8 = 0;
        while i < 4
            invariant
                i <= 4,
                r@.len() == i as int,
                forall|j: int|
                    0 <= j < i as int ==> #[trigger] r@[j] == (
                    spec_suit_from_index(j),
                    self.spec_get(spec_suit_from_index(j)),
                ),
            decreases 4 - i,
        {
            let s = suit_from_index(i);
            r.push((s, *self.get(s)));
            i = i + 1;
        }
        r
    }
}

/// The boolean suit map that marks no suit.
pub open spec fn no_suits() -> SuitMap<bool> {
    SuitMap { clubs: false, diamonds: false, hearts: false, spades: false }
}

/// How many suits a boolean suit map marks.
pub open spec fn count_present(m: SuitMap<bool>) -> int {
    (if m.clubs {
        1int
    } else {
        0int
    }) + (if m.diamonds {
        1int
    } else {
        0int
    }) + (if m.hearts {
        1int
    } else {
        0int
    }) + (if m.spades {
        1int
    } else {
        0int
    })
}

/// Every suit the first map marks, the second marks too.
pub open spec fn subset_of(a: SuitMap<bool>, b: SuitMap<bool>) -> bool {
    (a.clubs ==> b.clubs) && (a.diamonds ==> b.diamonds) && (a.hearts ==> b.hearts) && (a.spades
        ==> b.spades)
}

/// The first marked suit in enumeration order, if any.
pub open spec fn spec_first_present(m: SuitMap<bool>) -> Option<Suit> {
    if m.clubs {
        Some(Suit::Clubs)
    } else if m.diamonds {
        Some(Suit::Diamonds)
    } else if m.hearts {
        Some(Suit::Hearts)
    } else if m.spades {
        Some(Suit::Spades)
    } else {
        None
    }
}

/// Find the first marked suit of a boolean suit map, in enumeration order.
pub fn first_present(m: &SuitMap<bool>) -> (r: Option<Suit>)
    ensures
        r == spec_first_present(*m),
{
    if m.clubs {
        Some(Suit::Clubs)
    } else if m.diamonds {
        Some(Suit::Diamonds)
    } else if m.hearts {
        Some(Suit::Hearts)
    } else if m.spades {
        Some(Suit::Spades)
    } else {
        None
    }
}

/// Decide whether a boolean suit map marks more than one suit.
pub fn more_than_one_present(m: &SuitMap<bool>) -> (r: bool)
    ensures
        r == (count_present(*m) > 1),
{
    let mut count: u8 = 0;
    if m.clubs {
        count = count + 1;
    }
    if m.diamonds {
        count = count + 1;
    }
    if m.hearts {
        count = count + 1;
    }
    if m.spades {
        count = count + 1;
    }
    count > 1
}

} // verus!
