//! Pure value types for the grid: directions, coordinates, and the queued
//! rotation amount. The y axis grows upward.
use vstd::prelude::*;

verus! {

#[derive(Copy, Clone, PartialEq, Eq, Structural, Debug)]
pub enum Direction {
    Still,
    Left,
    Right,
    Up,
    Down,
}

impl Direction {
    /// The four real directions, in the order motion is explored;
    /// `Still` stands for no motion and is never part of this enumeration.
    pub fn each_real() -> (r: Vec<Direction>)
        ensures
            r@ =~= seq![Direction::Left, Direction::Right, Direction::Up, Direction::Down],
    {
        let mut v: Vec<Direction> = Vec::new();
        v.push(Direction::Left);
        v.push(Direction::Right);
        v.push(Direction::Up);
        v.push(Direction::Down);
        v
    }
}

#[derive(Copy, Clone, PartialEq, Eq, Structural, Debug)]
pub struct Coord {
    pub x: i32,
    pub y: i32,
}

/// Where a unit step in `motion` lands, as unbounded integers.
pub open spec fn apply_motion_spec(c: Coord, motion: Direction) -> (int, int) {
    match motion {
        Direction::Left => (c.x - 1, c.y as int),
        Direction::Right => (c.x + 1, c.y as int),
        Direction::Up => (c.x as int, c.y + 1),
        Direction::Down => (c.x as int, c.y - 1),
        Direction::Still => (c.x as int, c.y as int),
    }
}

/// The stepped cell itself, meaningful when the step stays in `i32`.
pub open spec fn moved_coord(c: Coord, motion: Direction) -> Coord {
    Coord { x: apply_motion_spec(c, motion).0 as i32, y: apply_motion_spec(c, motion).1 as i32 }
}

/// A unit step in `motion` stays representable in `i32`.
pub open spec fn can_apply(c: Coord, motion: Direction) -> bool {
    match motion {
        Direction::Left => c.x > i32::MIN,
        Direction::Right => c.x < i32::MAX,
        Direction::Up => c.y < i32::MAX,
        Direction::Down => c.y > i32::MIN,
        Direction::Still => true,
    }
}

/// Two cells are adjacent iff they differ by exactly one in one axis
/// and zero in the other.
pub open spec fn adjacent(a: Coord, b: Coord) -> bool {
    ||| (a.x == b.x && (b.y == a.y + 1 || b.y == a.y - 1))
    ||| (a.y == b.y && (b.x == a.x + 1 || b.x == a.x - 1))
}

/// The direction from `a` to an adjacent `b`. Both the upward and the
/// downward offset map to `Up`; the engine only ever reads this for
/// horizontal pairs, where the answer is unambiguous. Non-adjacent pairs
/// map to `Still`.
pub open spec fn motion_to_spec(a: Coord, b: Coord) -> Direction {
    if b.x == a.x - 1 && b.y == a.y {
        Direction::Left
    } else if b.x == a.x + 1 && b.y == a.y {
        Direction::Right
    } else if b.x == a.x && (b.y == a.y + 1 || b.y == a.y - 1) {
        Direction::Up
    } else {
        Direction::Still
    }
}

impl Coord {
    fn up(&self) -> (r: Self)
        requires
            self.y < i32::MAX,
        ensures
            r.x == self.x && r.y == self.y + 1,
    {
        Coord { x: self.x, y: self.y + 1 }
    }

    fn down(&self) -> (r: Self)
        requires
            self.y > i32::MIN,
        ensures
            r.x == self.x && r.y == self.y - 1,
    {
        Coord { x: self.x, y: self.y - 1 }
    }

    fn left(&self) -> (r: Self)
        requires
            self.x > i32::MIN,
        ensures
            r.x == self.x - 1 && r.y == self.y,
    {
        Coord { x: self.x - 1, y: self.y }
    }

    fn right(&self) -> (r: Self)
        requires
            self.x < i32::MAX,
        ensures
            r.x == self.x + 1 && r.y == self.y,
    {
        Coord { x: self.x + 1, y: self.y }
    }

    pub fn apply_motion(&self, motion: Direction) -> (r: Self)
        requires
            can_apply(*self, motion),
        ensures
            (r.x as int, r.y as int) == apply_motion_spec(*self, motion),
            r == moved_coord(*self, motion),
    {
        match motion {
            Direction::Left => self.left(),
            Direction::Right => self.right(),
            Direction::Up => self.up(),
            Direction::Down => self.down(),
            Direction::Still => *self,
        }
    }

    pub fn is_adjacent(&self, other: &Self) -> (r: bool)
        ensures
            r == adjacent(*self, *other),
    {
        let xdiff: i64 = other.x as i64 - self.x as i64;
        let ydiff: i64 = other.y as i64 - self.y as i64;
        (xdiff == 0 && (ydiff == 1 || ydiff == -1)) || (ydiff == 0 && (xdiff == 1 || xdiff == -1))
    }

    pub fn motion_to(&self, other: &Self) -> (r: Direction)
        ensures
            r == motion_to_spec(*self, *other),
    {
        let xdiff: i64 = other.x as i64 - self.x as i64;
        let ydiff: i64 = other.y as i64 - self.y as i64;
        if xdiff == -1 && ydiff == 0 {
            Direction::Left
        } else if xdiff == 1 && ydiff == 0 {
            Direction::Right
        } else if xdiff == 0 && (ydiff == 1 || ydiff == -1) {
            Direction::Up
        } else {
            Direction::Still
        }
    }
}

#[derive(Copy, Clone, PartialEq, Eq, Structural, Debug)]
pub enum Rotation {
    Zero,
    Single,
    Double,
}

} // verus!
