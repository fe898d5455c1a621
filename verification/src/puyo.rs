//! The two-cell piece: an ordered pair of a pivot and a wheel, instantiated
//! either over colors (a piece waiting to spawn) or over coordinates (a piece
//! live on the board, whose wheel stays orthogonally adjacent to its pivot).
use vstd::prelude::*;
use crate::color::Color;
use crate::geometry::{adjacent, apply_motion_spec, can_apply, moved_coord, motion_to_spec, Coord, Direction};

verus! {

/// Both cells of `p` translated one step in `m`.
pub open spec fn moved_piece(p: Puyo<Coord>, m: Direction) -> Puyo<Coord> {
    Puyo { pivot: moved_coord(p.pivot, m), wheel: moved_coord(p.wheel, m) }
}

/// `p` with its wheel turned a quarter turn clockwise about the pivot.
pub open spec fn rotated_piece(p: Puyo<Coord>) -> Puyo<Coord> {
    let (dx, dy) = rotate_cw(p.wheel.x - p.pivot.x, p.wheel.y - p.pivot.y);
    Puyo {
        pivot: p.pivot,
        wheel: Coord { x: (p.pivot.x + dx) as i32, y: (p.pivot.y + dy) as i32 },
    }
}

/// `p` with its wheel moved to the opposite vertical side of the pivot.
pub open spec fn flipped_piece(p: Puyo<Coord>) -> Puyo<Coord> {
    Puyo {
        pivot: p.pivot,
        wheel: Coord {
            x: p.wheel.x,
            y: if p.wheel.y < p.pivot.y {
                (p.pivot.y + 1) as i32
            } else {
                (p.pivot.y - 1) as i32
            },
        },
    }
}

#[derive(Copy, Clone, PartialEq, Eq, Structural, Debug)]
pub struct Puyo<T> {
    pub pivot: T,
    pub wheel: T,
}

impl<T> Puyo<T> {
    pub fn pivot(&self) -> (r: &T)
        ensures
            *r == self.pivot,
    {
        &self.pivot
    }

    pub fn wheel(&self) -> (r: &T)
        ensures
            *r == self.wheel,
    {
        &self.wheel
    }
}

impl Puyo<Color> {
    pub fn new(pivot: Color, wheel: Color) -> (r: Self)
        ensures
            r.pivot == pivot && r.wheel == wheel,
    {
        Puyo { pivot, wheel }
    }

    /// A fresh piece whose two colors are drawn independently, each avoiding
    /// `excluded_color`.
    pub fn from_excluded(excluded_color: Color) -> (r: Self)
        ensures
            r.pivot.spec_is_normal() && r.wheel.spec_is_normal(),
            excluded_color.spec_is_normal() ==> r.pivot != excluded_color && r.wheel
                != excluded_color,
    {
        Puyo { pivot: Color::exclude(excluded_color), wheel: Color::exclude(excluded_color) }
    }

    pub fn empty() -> (r: Self)
        ensures
            r.pivot == Color::Empty && r.wheel == Color::Empty,
    {
        Puyo { pivot: Color::Empty, wheel: Color::Empty }
    }
}

/// The wheel's offset from the pivot after a quarter turn clockwise:
/// right goes below, below goes left, left goes above, above goes right.
pub open spec fn rotate_cw(dx: int, dy: int) -> (int, int) {
    if dx == 1 && dy == 0 {
        (0, -1)
    } else if dx == 0 && dy == -1 {
        (-1, 0)
    } else if dx == -1 && dy == 0 {
        (0, 1)
    } else {
        (1, 0)
    }
}

impl Puyo<Coord> {
    /// The wheel must be orthogonally adjacent to the pivot; a pair that is
    /// not is a programming error and is excluded here rather than repaired.
    pub fn new(pivot: Coord, wheel: Coord) -> (r: Self)
        requires
            adjacent(pivot, wheel),
        ensures
            r.pivot == pivot && r.wheel == wheel,
    {
        Puyo { pivot, wheel }
    }

    pub open spec fn spec_is_vertical(&self) -> bool {
        self.wheel.x == self.pivot.x
    }

    #[verifier::when_used_as_spec(spec_is_vertical)]
    pub fn is_vertical(&self) -> (r: bool)
        ensures
            r == self.spec_is_vertical(),
    {
        self.wheel.x == self.pivot.x
    }

    /// The direction from the pivot to the wheel, used to pick the kick
    /// direction; only read for horizontal pieces.
    pub fn rotation(&self) -> (r: Direction)
        ensures
            r == motion_to_spec(self.pivot, self.wheel),
    {
        self.pivot.motion_to(&self.wheel)
    }

    /// Translate both cells one step.
    pub fn move_(&mut self, motion: Direction)
        requires
            can_apply(old(self).pivot, motion),
            can_apply(old(self).wheel, motion),
        ensures
            (final(self).pivot.x as int, final(self).pivot.y as int) == apply_motion_spec(
                old(self).pivot,
                motion,
            ),
            (final(self).wheel.x as int, final(self).wheel.y as int) == apply_motion_spec(
                old(self).wheel,
                motion,
            ),
            *final(self) == moved_piece(*old(self), motion),
    {
        self.pivot = self.pivot.apply_motion(motion);
        self.wheel = self.wheel.apply_motion(motion);
    }

    /// Move the wheel to the opposite vertical side of the pivot: a 180
    /// degree turn for a vertical piece.
    pub fn flip(&mut self)
        requires
            i32::MIN < old(self).pivot.y < i32::MAX,
        ensures
            final(self).pivot == old(self).pivot,
            final(self).wheel.x == old(self).wheel.x,
            old(self).wheel.y < old(self).pivot.y ==> final(self).wheel.y == old(self).pivot.y + 1,
            old(self).wheel.y >= old(self).pivot.y ==> final(self).wheel.y == old(self).pivot.y
                - 1,
            *final(self) == flipped_piece(*old(self)),
    {
        if self.wheel.y < self.pivot.y {
            self.wheel.y = self.pivot.y + 1;
        } else {
            self.wheel.y = self.pivot.y - 1;
        }
    }

    /// Rotate the wheel a quarter turn clockwise about the pivot.
    pub fn rotate(&mut self)
        requires
            adjacent(old(self).pivot, old(self).wheel),
            i32::MIN < old(self).pivot.x < i32::MAX,
            i32::MIN < old(self).pivot.y < i32::MAX,
        ensures
            final(self).pivot == old(self).pivot,
            (final(self).wheel.x as int, final(self).wheel.y as int) == {
                let (dx, dy) = rotate_cw(
                    old(self).wheel.x - old(self).pivot.x,
                    old(self).wheel.y - old(self).pivot.y,
                );
                (old(self).pivot.x + dx, old(self).pivot.y + dy)
            },
            adjacent(final(self).pivot, final(self).wheel),
            *final(self) == rotated_piece(*old(self)),
    {
        let xdiff: i64 = self.wheel.x as i64 - self.pivot.x as i64;
        let ydiff: i64 = self.wheel.y as i64 - self.pivot.y as i64;
        let newdiff: (i32, i32) = if xdiff == 1 && ydiff == 0 {
            (0, -1)
        } else if xdiff == 0 && ydiff == -1 {
            (-1, 0)
        } else if xdiff == -1 && ydiff == 0 {
            (0, 1)
        } else {
            (1, 0)
        };
        self.wheel.x = self.pivot.x + newdiff.0;
        self.wheel.y = self.pivot.y + newdiff.1;
    }
}

} // verus!
