//! Cell contents: five normal playable colors plus the `Empty` and
//! `Garbage` sentinels, and the random color picks used for new pieces.
use vstd::prelude::*;
use crate::random::random_index;

verus! {

pub const NUM_NORMAL_COLORS: usize = 5;

#[derive(Copy, Clone, PartialEq, Eq, Structural, Debug)]
pub enum Color {
    Empty,
    Garbage,
    Red,
    Green,
    Blue,
    Yellow,
    Violet,
}

/// The normal colors in their fixed order.
pub open spec fn normal_color(i: int) -> Color {
    if i == 0 {
        Color::Red
    } else if i == 1 {
        Color::Green
    } else if i == 2 {
        Color::Blue
    } else if i == 3 {
        Color::Yellow
    } else {
        Color::Violet
    }
}

impl Color {
    /// Normal means playable: anything but the `Empty` and `Garbage` sentinels.
    pub open spec fn spec_is_normal(&self) -> bool {
        !(*self is Empty || *self is Garbage)
    }

    #[verifier::when_used_as_spec(spec_is_normal)]
    pub fn is_normal(&self) -> (r: bool)
        ensures
            r == self.spec_is_normal(),
    {
        match self {
            Color::Empty | Color::Garbage => false,
            _ => true,
        }
    }

    /// The position of `self` among the normal colors, if it is one.
    pub open spec fn normal_index(self) -> int {
        match self {
            Color::Red => 0,
            Color::Green => 1,
            Color::Blue => 2,
            Color::Yellow => 3,
            Color::Violet => 4,
            _ => -1,
        }
    }

    fn normal_at(i: usize) -> (r: Color)
        requires
            i < NUM_NORMAL_COLORS,
        ensures
            r == normal_color(i as int),
    {
        if i == 0 {
            Color::Red
        } else if i == 1 {
            Color::Green
        } else if i == 2 {
            Color::Blue
        } else if i == 3 {
            Color::Yellow
        } else {
            Color::Violet
        }
    }

    fn position_of_normal(c: Color) -> (r: Option<usize>)
        ensures
            c.spec_is_normal() ==> r == Some(c.normal_index() as usize),
            !c.spec_is_normal() ==> r is None,
    {
        match c {
            Color::Red => Some(0),
            Color::Green => Some(1),
            Color::Blue => Some(2),
            Color::Yellow => Some(3),
            Color::Violet => Some(4),
            _ => None,
        }
    }

    /// A normal color chosen at random.
    pub fn any() -> (r: Color)
        ensures
            r.spec_is_normal(),
    {
        let choice = random_index(NUM_NORMAL_COLORS);
        Self::normal_at(choice)
    }

    /// A normal color chosen at random among the ones other than `exclude`:
    /// one of the remaining candidates is drawn and the excluded index is
    /// substituted away. When `exclude` is not itself normal, this degrades
    /// to a draw over the first four normal colors.
    pub fn exclude(exclude: Color) -> (r: Color)
        ensures
            r.spec_is_normal(),
            exclude.spec_is_normal() ==> r != exclude,
    {
        let exclude_index = Self::position_of_normal(exclude);
        let mut choice = random_index(NUM_NORMAL_COLORS - 1);
        if let Some(xi) = exclude_index {
            if choice == xi {
                choice = choice + 1;
            }
        }
        proof {
            assert(forall|i: int, j: int|
                0 <= i < 5 && 0 <= j < 5 && i != j ==> normal_color(i) != normal_color(j));
        }
        Self::normal_at(choice)
    }
}

} // verus!
