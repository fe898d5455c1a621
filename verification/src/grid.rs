//! The board model: a fixed-size grid stored row-major in one vector, with
//! row zero at the bottom and the top row reserved for spawn and overflow
//! detection, plus the counting notions the engine's accounting rests on.
use vstd::prelude::*;
use crate::color::Color;
use crate::geometry::Coord;

verus! {

pub const BOARD_WIDTH: usize = 6;

pub const BOARD_HEIGHT: usize = 13;

/// Cells of the whole grid, the reserved top row included.
pub const BOARD_CELLS: usize = 78;

/// Cells of the rows that clear scanning looks at: all but the top row.
pub const SCAN_CELLS: usize = 72;

/// Inside the grid, top row included.
pub open spec fn in_bounds(c: Coord) -> bool {
    0 <= c.x < BOARD_WIDTH && 0 <= c.y < BOARD_HEIGHT
}

/// Inside the rows that clear scanning looks at.
pub open spec fn in_scan_bounds(c: Coord) -> bool {
    0 <= c.x < BOARD_WIDTH && 0 <= c.y < BOARD_HEIGHT - 1
}

/// The row-major position of a cell.
pub open spec fn idx(c: Coord) -> int {
    c.y * BOARD_WIDTH + c.x
}

/// Distinct in-bounds cells sit at distinct row-major positions.
pub proof fn lemma_idx_distinct(a: Coord, b: Coord)
    requires
        in_bounds(a),
        in_bounds(b),
        a != b,
    ensures
        idx(a) != idx(b),
{
}

pub proof fn lemma_idx_in_range(c: Coord)
    requires
        in_bounds(c),
    ensures
        0 <= idx(c) < BOARD_CELLS,
        in_scan_bounds(c) ==> idx(c) < SCAN_CELLS,
{
}

/// A well-formed board: one color per cell of the grid.
pub open spec fn board_wf(b: Seq<Color>) -> bool {
    b.len() == BOARD_CELLS
}

/// The cell of column `x`, row `y`.
pub open spec fn at_xy(b: Seq<Color>, x: int, y: int) -> Color {
    b[y * BOARD_WIDTH + x]
}

/// Column `x` of the grid, bottom row first.
pub open spec fn col_seq(b: Seq<Color>, x: int) -> Seq<Color> {
    Seq::new(BOARD_HEIGHT as nat, |y: int| b[y * BOARD_WIDTH + x])
}

/// One sequential gravity pass over a single column: the row pairs are
/// considered bottom-up through row `y`, and an occupied cell falls into
/// an empty cell directly below it, so a stack above a gap shifts down one
/// row as a whole.
pub open spec fn grav_upto(col: Seq<Color>, y: int) -> Seq<Color>
    decreases y,
{
    if y <= 0 {
        col
    } else {
        let c = grav_upto(col, y - 1);
        if c[y - 1] == Color::Empty && c[y] != Color::Empty {
            c.update(y - 1, c[y]).update(y, Color::Empty)
        } else {
            c
        }
    }
}

pub proof fn lemma_grav_upto_len(col: Seq<Color>, y: int)
    requires
        y < col.len(),
    ensures
        grav_upto(col, y).len() == col.len(),
    decreases y,
{
    if y > 0 {
        lemma_grav_upto_len(col, y - 1);
    }
}

/// The column has room for a garbage unit: some cell of it is empty with
/// nothing but garbage above it.
pub open spec fn column_can_take(b: Seq<Color>, x: int) -> bool {
    exists|y: int|
        0 <= y < BOARD_HEIGHT && #[trigger] at_xy(b, x, y) == Color::Empty && (forall|y2: int|
            y < y2 < BOARD_HEIGHT ==> at_xy(b, x, y2) == Color::Garbage)
}

/// Gravity has reached its fixed point: nowhere does an occupied cell sit
/// directly above an empty one in the same column.
pub open spec fn settled(b: Seq<Color>) -> bool {
    forall|x: int, y: int|
        0 <= x < BOARD_WIDTH && 0 <= y < BOARD_HEIGHT - 1 && #[trigger] at_xy(b, x, y)
            == Color::Empty ==> at_xy(b, x, y + 1) == Color::Empty
}

/// How many entries of `s` equal `v`.
pub open spec fn count_val<T>(s: Seq<T>, v: T) -> int
    decreases s.len(),
{
    if s.len() == 0 {
        0
    } else {
        count_val(s.drop_last(), v) + if s.last() == v {
            1int
        } else {
            0int
        }
    }
}

/// How many cells of `s` are occupied.
pub open spec fn count_nonempty(s: Seq<Color>) -> int {
    s.len() - count_val(s, Color::Empty)
}

pub proof fn lemma_count_val_bound<T>(s: Seq<T>, v: T)
    ensures
        0 <= count_val(s, v) <= s.len(),
    decreases s.len(),
{
    if s.len() > 0 {
        lemma_count_val_bound(s.drop_last(), v);
    }
}

/// Updating one entry moves the count by what leaves and what arrives.
pub proof fn lemma_count_val_update<T>(s: Seq<T>, i: int, x: T, v: T)
    requires
        0 <= i < s.len(),
    ensures
        count_val(s.update(i, x), v) == count_val(s, v) + (if x == v {
            1int
        } else {
            0int
        }) - (if s[i] == v {
            1int
        } else {
            0int
        }),
    decreases s.len(),
{
    let t = s.update(i, x);
    if i == s.len() - 1 {
        assert(t.drop_last() =~= s.drop_last());
    } else {
        assert(t.drop_last() =~= s.drop_last().update(i, x));
        assert(t.last() == s.last());
        lemma_count_val_update(s.drop_last(), i, x, v);
    }
}

/// A value that never occurs counts zero.
pub proof fn lemma_count_val_none<T>(s: Seq<T>, v: T)
    requires
        forall|i: int| 0 <= i < s.len() ==> s[i] != v,
    ensures
        count_val(s, v) == 0,
    decreases s.len(),
{
    if s.len() > 0 {
        lemma_count_val_none(s.drop_last(), v);
    }
}

/// A sequence made of `v` alone is all count.
pub proof fn lemma_count_val_all<T>(s: Seq<T>, v: T)
    requires
        forall|i: int| 0 <= i < s.len() ==> s[i] == v,
    ensures
        count_val(s, v) == s.len(),
    decreases s.len(),
{
    if s.len() > 0 {
        lemma_count_val_all(s.drop_last(), v);
    }
}

/// Two different values cannot together fill more than the whole sequence.
pub proof fn lemma_count_val_two_bound<T>(s: Seq<T>, a: T, b: T)
    requires
        a != b,
    ensures
        count_val(s, a) + count_val(s, b) <= s.len(),
    decreases s.len(),
{
    if s.len() > 0 {
        lemma_count_val_two_bound(s.drop_last(), a, b);
    }
}

/// Four distinct entries that are `v` make the count at least four; `w`
/// is any other value used to discharge them one at a time.
pub proof fn lemma_count_val_four<T>(s: Seq<T>, v: T, w: T, i1: int, i2: int, i3: int, i4: int)
    requires
        v != w,
        0 <= i1 < s.len(),
        0 <= i2 < s.len(),
        0 <= i3 < s.len(),
        0 <= i4 < s.len(),
        i1 != i2 && i1 != i3 && i1 != i4 && i2 != i3 && i2 != i4 && i3 != i4,
        s[i1] == v && s[i2] == v && s[i3] == v && s[i4] == v,
    ensures
        count_val(s, v) >= 4,
{
    let s1 = s.update(i1, w);
    let s2 = s1.update(i2, w);
    let s3 = s2.update(i3, w);
    lemma_count_val_update(s, i1, w, v);
    lemma_count_val_update(s1, i2, w, v);
    lemma_count_val_update(s2, i3, w, v);
    lemma_count_val_pos(s3, v, i4);
}

/// If every occurrence of `v` sits at one of three named positions, there
/// are at most three occurrences; `w` is any other value used to discharge
/// them.
pub proof fn lemma_count_val_three_cap<T>(s: Seq<T>, v: T, w: T, i1: int, i2: int, i3: int)
    requires
        v != w,
        0 <= i1 < s.len(),
        0 <= i2 < s.len(),
        0 <= i3 < s.len(),
        forall|j: int| 0 <= j < s.len() && s[j] == v ==> j == i1 || j == i2 || j == i3,
    ensures
        count_val(s, v) <= 3,
{
    let s1 = s.update(i1, w);
    let s2 = s1.update(i2, w);
    let s3 = s2.update(i3, w);
    lemma_count_val_update(s, i1, w, v);
    lemma_count_val_update(s1, i2, w, v);
    lemma_count_val_update(s2, i3, w, v);
    lemma_count_val_none(s3, v);
}

/// An entry that is `v` makes the count positive.
pub proof fn lemma_count_val_pos<T>(s: Seq<T>, v: T, i: int)
    requires
        0 <= i < s.len(),
        s[i] == v,
    ensures
        count_val(s, v) >= 1,
    decreases s.len(),
{
    if i < s.len() - 1 {
        lemma_count_val_pos(s.drop_last(), v, i);
    } else {
        lemma_count_val_bound(s.drop_last(), v);
    }
}

/// A vector holding `n` copies of `v`.
pub fn filled<T: Copy>(n: usize, v: T) -> (r: Vec<T>)
    ensures
        r@.len() == n,
        forall|i: int| 0 <= i < n ==> r@[i] == v,
{
    let mut out: Vec<T> = Vec::new();
    let mut i: usize = 0;
    while i < n
        invariant
            i <= n,
            out@.len() == i,
            forall|j: int| 0 <= j < i ==> out@[j] == v,
        decreases n - i,
    {
        out.push(v);
        i = i + 1;
    }
    out
}

pub proof fn lemma_count_nonempty_update(s: Seq<Color>, i: int, x: Color)
    requires
        0 <= i < s.len(),
    ensures
        count_nonempty(s.update(i, x)) == count_nonempty(s) + (if x != Color::Empty {
            1int
        } else {
            0int
        }) - (if s[i] != Color::Empty {
            1int
        } else {
            0int
        }),
{
    lemma_count_val_update(s, i, x, Color::Empty);
}

pub proof fn lemma_count_nonempty_bound(s: Seq<Color>)
    ensures
        0 <= count_nonempty(s) <= s.len(),
{
    lemma_count_val_bound(s, Color::Empty);
}

} // verus!
