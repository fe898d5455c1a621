//! The per-tick game engine: one board, the piece under control, buffered
//! intents, the chain accumulator, and the garbage economy with the
//! opposing board.
use vstd::prelude::*;
use crate::chain::{ChainTracker, POINTS_PER_GARBAGE};
use crate::color::Color;
use crate::geometry::{adjacent, motion_to_spec, moved_coord, Coord, Direction, Rotation};
use crate::grid::{at_xy, board_wf, col_seq, column_can_take, grav_upto, lemma_grav_upto_len, count_nonempty, in_bounds, idx, settled, lemma_count_nonempty_bound, lemma_count_nonempty_update, lemma_count_val_all, lemma_count_val_update, count_val, lemma_count_val_bound, lemma_count_val_four, lemma_count_val_three_cap, lemma_count_val_none, lemma_count_val_pos, lemma_count_val_two_bound, filled, lemma_idx_distinct, lemma_idx_in_range, SCAN_CELLS, in_scan_bounds, BOARD_CELLS, BOARD_HEIGHT, BOARD_WIDTH};
use crate::puyo::{flipped_piece, moved_piece, rotated_piece, Puyo};
use crate::render::Renderer;

verus! {

/// The column where new pieces spawn.
pub const SPAWN_X: i32 = 3;

/// The row where a new piece's pivot spawns; its wheel sits one above, in
/// the reserved top row.
pub const SPAWN_Y: i32 = 11;

pub struct Game {
    pub is_over: bool,
    pub tick_num: u32,
    /// The grid as last acknowledged by the presentation layer.
    pub front_board: Vec<Color>,
    /// The live grid, row-major with row zero at the bottom.
    pub board: Vec<Color>,
    /// The sentinel color that seeds the acknowledged grid; never dealt to
    /// a piece, so the first diff repaints everything.
    pub excluded_color: Color,
    /// The piece under the player's control, if any.
    pub current: Option<Puyo<Coord>>,
    /// The colors the next piece will carry.
    pub next: Puyo<Color>,
    pub chain: ChainTracker,
    pub incoming_garbage: u32,
    pub garbage_column_index: usize,
    /// The buffered motion intent; `Up` is never stored.
    pub motion: Direction,
    pub rotate: Rotation,
    pub outgoing_garbage: u32,
    /// Garbage ever handed in through `add_garbage`.
    pub garbage_added: Ghost<nat>,
    /// Garbage ever written onto the board.
    pub garbage_placed: Ghost<nat>,
    /// Garbage cancelled against this board's own score before sending.
    pub garbage_netted: Ghost<nat>,
}

/// A column whose rows from `y` upward are all garbage, and whose cell
/// just below (when there is one) is neither garbage nor empty, has no
/// room for a garbage unit.
proof fn lemma_column_blocked(b: Seq<Color>, x: int, y: int)
    requires
        board_wf(b),
        0 <= x < BOARD_WIDTH,
        0 <= y <= BOARD_HEIGHT,
        forall|y2: int| y <= y2 < BOARD_HEIGHT ==> #[trigger] at_xy(b, x, y2) == Color::Garbage,
        y > 0 ==> at_xy(b, x, y - 1) != Color::Garbage && at_xy(b, x, y - 1) != Color::Empty,
    ensures
        !column_can_take(b, x),
{
    if column_can_take(b, x) {
        let ye = choose|ye: int|
            0 <= ye < BOARD_HEIGHT && #[trigger] at_xy(b, x, ye) == Color::Empty && (forall|
                y2: int,
            |
                ye < y2 < BOARD_HEIGHT ==> at_xy(b, x, y2) == Color::Garbage);
        if ye >= y {
            assert(at_xy(b, x, ye) == Color::Garbage);
        } else if ye < y - 1 {
            assert(at_xy(b, x, y - 1) == Color::Garbage);
        }
        assert(false);
    }
}

/// Where a fresh piece takes control: the pivot at the spawn cell, the
/// wheel directly above it in the reserved top row.
pub open spec fn spawn_pos() -> Puyo<Coord> {
    Puyo { pivot: Coord { x: 3, y: 11 }, wheel: Coord { x: 3, y: 12 } }
}

/// The fixed interleaved order in which garbage visits the columns,
/// spreading it evenly instead of left to right.
pub open spec fn garbage_column_spec(i: int) -> int {
    if i == 0 {
        0
    } else if i == 1 {
        3
    } else if i == 2 {
        2
    } else if i == 3 {
        5
    } else if i == 4 {
        1
    } else {
        4
    }
}

/// How many cursor steps from `start` reach position `j`, walking the six
/// positions cyclically.
pub open spec fn cursor_offset(start: int, j: int) -> int {
    if j >= start {
        j - start
    } else {
        j - start + 6
    }
}

fn garbage_column(i: usize) -> (r: usize)
    requires
        i < BOARD_WIDTH,
    ensures
        r == garbage_column_spec(i as int),
        r < BOARD_WIDTH,
{
    if i == 0 {
        0
    } else if i == 1 {
        3
    } else if i == 2 {
        2
    } else if i == 3 {
        5
    } else if i == 4 {
        1
    } else {
        4
    }
}

/// Flood-fill marks, one per cell of the scan area.
pub const MARK_NONE: u8 = 0;

/// The cell belongs to the group: it carries the group's color.
pub const MARK_FOUND: u8 = 1;

/// A garbage cell the group touches: it clears with the group but does not
/// extend it.
pub const MARK_GARBAGE: u8 = 2;

/// The cell sits in the work queue, not yet classified.
pub const MARK_QUEUED: u8 = 3;

/// The cell was visited and carries some other color.
pub const MARK_OTHER: u8 = 4;

/// The flood has gone as far as it can: every cell adjacent to a cell of
/// the group, inside the scan area and not memoized as unclearable, has
/// been looked at.
pub open spec fn flood_closed(unclearable: Seq<bool>, mark: Seq<u8>) -> bool {
    forall|c: Coord, d: Coord|
        #![trigger adjacent(c, d), mark[idx(c)]]
        in_scan_bounds(c) && in_scan_bounds(d) && adjacent(c, d) && mark[idx(c)] == MARK_FOUND
            && !unclearable[idx(d)] ==> mark[idx(d)] != MARK_NONE
}

/// Queue `possible` for the flood if it lies in the scan area, has not
/// been touched by this flood, and is not memoized as unclearable.
fn try_push(
    unclearable: &Vec<bool>,
    mark: &mut Vec<u8>,
    pending: &mut Vec<Coord>,
    possible: Coord,
)
    requires
        unclearable@.len() == SCAN_CELLS,
        old(mark)@.len() == SCAN_CELLS,
    ensures
        in_scan_bounds(possible) && old(mark)@[idx(possible)] == MARK_NONE && !unclearable@[idx(
            possible,
        )] ==> final(mark)@ == old(mark)@.update(idx(possible), MARK_QUEUED) && final(pending)@
            == old(pending)@.push(possible),
        !(in_scan_bounds(possible) && old(mark)@[idx(possible)] == MARK_NONE && !unclearable@[idx(
            possible,
        )]) ==> final(mark)@ == old(mark)@ && final(pending)@ == old(pending)@,
        count_val(final(mark)@, MARK_FOUND) == count_val(old(mark)@, MARK_FOUND),
        count_val(final(mark)@, MARK_GARBAGE) == count_val(old(mark)@, MARK_GARBAGE),
        count_val(final(mark)@, MARK_QUEUED) == count_val(old(mark)@, MARK_QUEUED)
            + final(pending)@.len() - old(pending)@.len(),
        5 * count_val(final(mark)@, MARK_NONE) + final(pending)@.len() <= 5 * count_val(
            old(mark)@,
            MARK_NONE,
        ) + old(pending)@.len(),
{
    if possible.x >= 0 && possible.y >= 0 && (possible.x as usize) < BOARD_WIDTH && (
    possible.y as usize) < BOARD_HEIGHT - 1 {
        let i = (possible.y as usize) * BOARD_WIDTH + (possible.x as usize);
        if mark[i] == MARK_NONE && !unclearable[i] {
            proof {
                lemma_count_val_update(mark@, i as int, MARK_QUEUED, MARK_FOUND);
                lemma_count_val_update(mark@, i as int, MARK_QUEUED, MARK_GARBAGE);
                lemma_count_val_update(mark@, i as int, MARK_QUEUED, MARK_QUEUED);
                lemma_count_val_update(mark@, i as int, MARK_QUEUED, MARK_NONE);
            }
            mark[i] = MARK_QUEUED;
            pending.push(possible);
        }
    }
}

/// The flood has committed to this cell belonging to the group: it is
/// either found already, or queued while carrying the group's color.
pub open spec fn blob_marked(b: Seq<Color>, blob: Color, mark: Seq<u8>, c: Coord) -> bool {
    in_scan_bounds(c) && (mark[idx(c)] == MARK_FOUND || (mark[idx(c)] == MARK_QUEUED && b[idx(c)]
        == blob))
}

/// One flood step that classifies the popped cell as outside the group
/// (garbage or another color) keeps the group-tracking facts: the set of
/// found cells is unchanged, and every garbage or queued cell still has a
/// found neighbor.
proof fn lemma_flood_step_other(
    b: Seq<Color>,
    blob: Color,
    start: Coord,
    m0: Seq<u8>,
    m1: Seq<u8>,
    item: Coord,
)
    requires
        b.len() == BOARD_CELLS,
        m0.len() == SCAN_CELLS,
        m1.len() == SCAN_CELLS,
        in_scan_bounds(item),
        m0[idx(item)] == MARK_QUEUED,
        m1[idx(item)] == MARK_GARBAGE || m1[idx(item)] == MARK_OTHER,
        b[idx(item)] != blob,
        m1[idx(item)] == MARK_GARBAGE ==> item != start,
        forall|c: Coord| in_scan_bounds(c) && c != item ==> m1[idx(c)] == m0[idx(c)],
        forall|s: Set<Coord>, f: Coord, g: Coord|
            #![trigger s.contains(f), blob_marked(b, blob, m0, g)]
            region_closed(b, blob, s) && blob_marked(b, blob, m0, f) && s.contains(f)
                && blob_marked(b, blob, m0, g) ==> s.contains(g),
        forall|d: Coord|
            in_scan_bounds(d) && (#[trigger] m0[idx(d)] == MARK_GARBAGE || (m0[idx(d)]
                == MARK_QUEUED && d != start)) ==> exists|f: Coord|
                in_scan_bounds(f) && adjacent(f, d) && m0[idx(f)] == MARK_FOUND,
    ensures
        forall|s: Set<Coord>, f: Coord, g: Coord|
            #![trigger s.contains(f), blob_marked(b, blob, m1, g)]
            region_closed(b, blob, s) && blob_marked(b, blob, m1, f) && s.contains(f)
                && blob_marked(b, blob, m1, g) ==> s.contains(g),
        forall|d: Coord|
            in_scan_bounds(d) && (#[trigger] m1[idx(d)] == MARK_GARBAGE || (m1[idx(d)]
                == MARK_QUEUED && d != start)) ==> exists|f: Coord|
                in_scan_bounds(f) && adjacent(f, d) && m1[idx(f)] == MARK_FOUND,
{
    assert forall|s: Set<Coord>, f: Coord, g: Coord|
        region_closed(b, blob, s) && blob_marked(b, blob, m1, f) && #[trigger] s.contains(f)
            && #[trigger] blob_marked(b, blob, m1, g) implies s.contains(g) by {
        assert(blob_marked(b, blob, m0, f));
        assert(blob_marked(b, blob, m0, g));
    }
    assert forall|d: Coord|
        in_scan_bounds(d) && (#[trigger] m1[idx(d)] == MARK_GARBAGE || (m1[idx(d)] == MARK_QUEUED
            && d != start)) implies exists|f: Coord|
        in_scan_bounds(f) && adjacent(f, d) && m1[idx(f)] == MARK_FOUND by {
        lemma_idx_in_range(d);
        if d == item {
            let f = choose|f: Coord|
                in_scan_bounds(f) && adjacent(f, item) && m0[idx(f)] == MARK_FOUND;
            if f == item {
            } else {
                assert(m1[idx(f)] == MARK_FOUND);
            }
        } else {
            lemma_idx_distinct(d, item);
            let f = choose|f: Coord|
                in_scan_bounds(f) && adjacent(f, d) && m0[idx(f)] == MARK_FOUND;
            if f != item {
                assert(m1[idx(f)] == MARK_FOUND);
            }
        }
    }
}

/// One flood step that adds the popped cell to the group and queues its
/// untouched neighbors keeps the group-tracking facts: every committed
/// cell still lies in every closed set holding any of them, and every
/// garbage or queued cell still has a found neighbor.
proof fn lemma_flood_step_found(
    b: Seq<Color>,
    blob: Color,
    start: Coord,
    m0: Seq<u8>,
    m1: Seq<u8>,
    item: Coord,
)
    requires
        b.len() == BOARD_CELLS,
        m0.len() == SCAN_CELLS,
        m1.len() == SCAN_CELLS,
        in_scan_bounds(item),
        b[idx(item)] == blob,
        m0[idx(item)] == MARK_QUEUED,
        m1[idx(item)] == MARK_FOUND,
        forall|c: Coord|
            in_scan_bounds(c) && #[trigger] m1[idx(c)] != m0[idx(c)] && c != item ==> m1[idx(c)]
                == MARK_QUEUED && m0[idx(c)] == MARK_NONE && adjacent(item, c),
        forall|s: Set<Coord>, f: Coord, g: Coord|
            #![trigger s.contains(f), blob_marked(b, blob, m0, g)]
            region_closed(b, blob, s) && blob_marked(b, blob, m0, f) && s.contains(f)
                && blob_marked(b, blob, m0, g) ==> s.contains(g),
        forall|d: Coord|
            in_scan_bounds(d) && (#[trigger] m0[idx(d)] == MARK_GARBAGE || (m0[idx(d)]
                == MARK_QUEUED && d != start)) ==> exists|f: Coord|
                in_scan_bounds(f) && adjacent(f, d) && m0[idx(f)] == MARK_FOUND,
    ensures
        forall|s: Set<Coord>, f: Coord, g: Coord|
            #![trigger s.contains(f), blob_marked(b, blob, m1, g)]
            region_closed(b, blob, s) && blob_marked(b, blob, m1, f) && s.contains(f)
                && blob_marked(b, blob, m1, g) ==> s.contains(g),
        forall|d: Coord|
            in_scan_bounds(d) && (#[trigger] m1[idx(d)] == MARK_GARBAGE || (m1[idx(d)]
                == MARK_QUEUED && d != start)) ==> exists|f: Coord|
                in_scan_bounds(f) && adjacent(f, d) && m1[idx(f)] == MARK_FOUND,
{
    assert forall|s: Set<Coord>, f: Coord, g: Coord|
        region_closed(b, blob, s) && blob_marked(b, blob, m1, f) && #[trigger] s.contains(f)
            && #[trigger] blob_marked(b, blob, m1, g) implies s.contains(g) by {
        assert(blob_marked(b, blob, m0, item));
        if blob_marked(b, blob, m0, f) {
            assert(s.contains(item));
        } else {
            if f != item {
                assert(m1[idx(f)] != m0[idx(f)]);
                assert(adjacent(item, f));
                assert(adjacent(f, item));
                assert(s.contains(item));
            }
            assert(s.contains(item));
        }
        if blob_marked(b, blob, m0, g) {
            assert(s.contains(g));
        } else {
            if g != item {
                assert(m1[idx(g)] != m0[idx(g)]);
                assert(adjacent(item, g));
                assert(b[idx(g)] == blob);
                assert(s.contains(g));
            }
        }
    }
    assert forall|d: Coord|
        in_scan_bounds(d) && (#[trigger] m1[idx(d)] == MARK_GARBAGE || (m1[idx(d)] == MARK_QUEUED
            && d != start)) implies exists|f: Coord|
        in_scan_bounds(f) && adjacent(f, d) && m1[idx(f)] == MARK_FOUND by {
        lemma_idx_in_range(d);
        if m0[idx(d)] == MARK_GARBAGE || (m0[idx(d)] == MARK_QUEUED && d != start) {
            let f = choose|f: Coord|
                in_scan_bounds(f) && adjacent(f, d) && m0[idx(f)] == MARK_FOUND;
            if f == item {
                assert(m1[idx(f)] == MARK_FOUND);
            } else {
                assert(m1[idx(f)] == m0[idx(f)]);
            }
            assert(m1[idx(f)] == MARK_FOUND);
        } else {
            assert(d != item);
            assert(m1[idx(d)] != m0[idx(d)]);
            assert(adjacent(item, d));
            assert(m1[idx(item)] == MARK_FOUND);
        }
    }
}

/// Flood-fill the 4-connected group of cells sharing the start cell's
/// color, via an explicit work queue. Garbage neighbors are absorbed into
/// the group's surroundings without extending the flood; memoized
/// unclearable cells stop it. Hands back the marked scan area and the
/// group's cell count and absorbed-garbage count.
#[verifier::rlimit(100)]
#[verifier::spinoff_prover]
fn find_group(board: &Vec<Color>, unclearable: &Vec<bool>, sx: usize, sy: usize) -> (r: (
    Vec<u8>,
    u32,
    u32,
))
    requires
        board_wf(board@),
        unclearable@.len() == SCAN_CELLS,
        sx < BOARD_WIDTH,
        sy < BOARD_HEIGHT - 1,
        board@[sy * BOARD_WIDTH + sx].spec_is_normal(),
        !unclearable@[sy * BOARD_WIDTH + sx],
    ensures
        r.0@.len() == SCAN_CELLS,
        forall|i: int|
            0 <= i < SCAN_CELLS && #[trigger] r.0@[i] == MARK_FOUND ==> board@[i] == board@[sy
                * BOARD_WIDTH + sx] && !unclearable@[i],
        forall|i: int|
            0 <= i < SCAN_CELLS && #[trigger] r.0@[i] == MARK_GARBAGE ==> board@[i]
                == Color::Garbage && !unclearable@[i],
        r.1 == count_val(r.0@, MARK_FOUND),
        r.2 == count_val(r.0@, MARK_GARBAGE),
        r.0@[sy * BOARD_WIDTH + sx] == MARK_FOUND,
        1 <= r.1 && r.1 + r.2 <= SCAN_CELLS,
        forall|c: Coord, d: Coord|
            #![trigger adjacent(c, d), r.0@[idx(c)]]
            in_scan_bounds(c) && in_scan_bounds(d) && adjacent(c, d) && r.0@[idx(c)] == MARK_FOUND
                && board@[idx(d)] == board@[sy * BOARD_WIDTH + sx] && !unclearable@[idx(d)]
                ==> r.0@[idx(d)] == MARK_FOUND,
        forall|s: Set<Coord>, f: Coord, g: Coord|
            #![trigger s.contains(f), r.0@[idx(g)]]
            region_closed(board@, board@[sy * BOARD_WIDTH + sx], s) && in_scan_bounds(f)
                && r.0@[idx(f)] == MARK_FOUND && s.contains(f) && in_scan_bounds(g) && r.0@[idx(g)]
                == MARK_FOUND ==> s.contains(g),
        forall|c: Coord, d: Coord|
            #![trigger adjacent(c, d), r.0@[idx(d)]]
            in_scan_bounds(c) && in_scan_bounds(d) && adjacent(c, d) && r.0@[idx(c)] == MARK_FOUND
                && board@[idx(d)] == Color::Garbage && !unclearable@[idx(d)] ==> r.0@[idx(d)]
                == MARK_GARBAGE,
        forall|d: Coord|
            in_scan_bounds(d) && #[trigger] r.0@[idx(d)] == MARK_GARBAGE ==> exists|f: Coord|
                in_scan_bounds(f) && adjacent(f, d) && r.0@[idx(f)] == MARK_FOUND,
{
    let start = Coord { x: sx as i32, y: sy as i32 };
    let blob_i = sy * BOARD_WIDTH + sx;
    let blob_color = board[blob_i];
    let mut mark: Vec<u8> = filled(SCAN_CELLS, MARK_NONE);
    let mut pending: Vec<Coord> = Vec::new();
    let mut fcount: u32 = 0;
    let mut gcount: u32 = 0;
    proof {
        lemma_count_val_none(mark@, MARK_FOUND);
        lemma_count_val_none(mark@, MARK_GARBAGE);
        lemma_count_val_none(mark@, MARK_QUEUED);
        lemma_count_val_update(mark@, blob_i as int, MARK_QUEUED, MARK_FOUND);
        lemma_count_val_update(mark@, blob_i as int, MARK_QUEUED, MARK_GARBAGE);
        lemma_count_val_update(mark@, blob_i as int, MARK_QUEUED, MARK_QUEUED);
    }
    mark[blob_i] = MARK_QUEUED;
    pending.push(start);
    proof {
        assert(pending@[0] == start);
        assert forall|s: Set<Coord>, f: Coord, g: Coord|
            region_closed(board@, blob_color, s) && blob_marked(
                board@,
                blob_color,
                mark@,
                f,
            ) && #[trigger] s.contains(f) && #[trigger] blob_marked(
                board@,
                blob_color,
                mark@,
                g,
            ) implies s.contains(g) by {
            if f != start {
                lemma_idx_distinct(f, start);
            }
            if g != start {
                lemma_idx_distinct(g, start);
            }
        }
    }
    while pending.len() > 0
        invariant
            board_wf(board@),
            unclearable@.len() == SCAN_CELLS,
            in_scan_bounds(start),
            blob_i == idx(start),
            blob_color == board@[idx(start)],
            blob_color.spec_is_normal(),
            mark@.len() == SCAN_CELLS,
            forall|i: int|
                0 <= i < SCAN_CELLS && #[trigger] mark@[i] == MARK_FOUND ==> board@[i]
                    == blob_color && !unclearable@[i],
            forall|i: int|
                0 <= i < SCAN_CELLS && #[trigger] mark@[i] == MARK_GARBAGE ==> board@[i]
                    == Color::Garbage && !unclearable@[i],
            forall|j: int|
                0 <= j < pending@.len() ==> in_scan_bounds(#[trigger] pending@[j]) && mark@[idx(
                    pending@[j],
                )] == MARK_QUEUED && !unclearable@[idx(pending@[j])],
            forall|j: int, k: int| 0 <= j < k < pending@.len() ==> pending@[j] != pending@[k],
            mark@[idx(start)] == MARK_FOUND || (mark@[idx(start)] == MARK_QUEUED
                && pending@.contains(start)),
            forall|i: int|
                0 <= i < SCAN_CELLS ==> #[trigger] mark@[i] == MARK_NONE || mark@[i] == MARK_FOUND
                    || mark@[i] == MARK_GARBAGE || mark@[i] == MARK_QUEUED || mark@[i]
                    == MARK_OTHER,
            forall|i: int|
                0 <= i < SCAN_CELLS && #[trigger] mark@[i] == MARK_OTHER ==> board@[i]
                    != blob_color && board@[i] != Color::Garbage,
            forall|s: Set<Coord>, f: Coord, g: Coord|
                #![trigger s.contains(f), blob_marked(board@, blob_color, mark@, g)]
                region_closed(board@, blob_color, s) && blob_marked(board@, blob_color, mark@, f)
                    && s.contains(f) && blob_marked(board@, blob_color, mark@, g) ==> s.contains(
                    g,
                ),
            forall|d: Coord|
                in_scan_bounds(d) && (#[trigger] mark@[idx(d)] == MARK_GARBAGE || (mark@[idx(d)]
                    == MARK_QUEUED && d != start)) ==> exists|f: Coord|
                    in_scan_bounds(f) && adjacent(f, d) && mark@[idx(f)] == MARK_FOUND,
            count_val(mark@, MARK_QUEUED) == pending@.len(),
            flood_closed(unclearable@, mark@),
            fcount == count_val(mark@, MARK_FOUND),
            gcount == count_val(mark@, MARK_GARBAGE),
        decreases 5 * count_val(mark@, MARK_NONE) + pending@.len(),
    {
        proof {
            lemma_count_val_bound(mark@, MARK_NONE);
            lemma_count_val_bound(mark@, MARK_FOUND);
            lemma_count_val_bound(mark@, MARK_GARBAGE);
        }
        let ghost prev_pending = pending@;
        let item = pending.pop().unwrap();
        let ii = (item.y as usize) * BOARD_WIDTH + (item.x as usize);
        proof {
            assert forall|j: int| 0 <= j < pending@.len() implies idx(pending@[j]) != idx(
                item,
            ) by {
                lemma_idx_distinct(pending@[j], item);
            }
            if item != start {
                lemma_idx_distinct(item, start);
            }
        }
        let ghost m0 = mark@;
        let color = board[ii];
        if color == Color::Garbage {
            proof {
                lemma_count_val_update(mark@, ii as int, MARK_GARBAGE, MARK_FOUND);
                lemma_count_val_update(mark@, ii as int, MARK_GARBAGE, MARK_GARBAGE);
                lemma_count_val_update(mark@, ii as int, MARK_GARBAGE, MARK_QUEUED);
                lemma_count_val_update(mark@, ii as int, MARK_GARBAGE, MARK_NONE);
            }
            mark[ii] = MARK_GARBAGE;
            gcount = gcount + 1;
            proof {
                assert(item != start);
                assert forall|c: Coord| in_scan_bounds(c) && c != item implies mark@[idx(c)]
                    == m0[idx(c)] by {
                    lemma_idx_in_range(c);
                    lemma_idx_distinct(c, item);
                }
                lemma_flood_step_other(board@, blob_color, start, m0, mark@, item);
            }
        } else if !(color == blob_color) {
            proof {
                lemma_count_val_update(mark@, ii as int, MARK_OTHER, MARK_FOUND);
                lemma_count_val_update(mark@, ii as int, MARK_OTHER, MARK_GARBAGE);
                lemma_count_val_update(mark@, ii as int, MARK_OTHER, MARK_QUEUED);
                lemma_count_val_update(mark@, ii as int, MARK_OTHER, MARK_NONE);
            }
            mark[ii] = MARK_OTHER;
            proof {
                assert forall|c: Coord| in_scan_bounds(c) && c != item implies mark@[idx(c)]
                    == m0[idx(c)] by {
                    lemma_idx_in_range(c);
                    lemma_idx_distinct(c, item);
                }
                lemma_flood_step_other(board@, blob_color, start, m0, mark@, item);
            }
        } else {
            proof {
                lemma_count_val_update(mark@, ii as int, MARK_FOUND, MARK_FOUND);
                lemma_count_val_update(mark@, ii as int, MARK_FOUND, MARK_GARBAGE);
                lemma_count_val_update(mark@, ii as int, MARK_FOUND, MARK_QUEUED);
                lemma_count_val_update(mark@, ii as int, MARK_FOUND, MARK_NONE);
            }
            mark[ii] = MARK_FOUND;
            fcount = fcount + 1;
            try_push(unclearable, &mut mark, &mut pending, item.apply_motion(Direction::Left));
            try_push(unclearable, &mut mark, &mut pending, item.apply_motion(Direction::Right));
            try_push(unclearable, &mut mark, &mut pending, item.apply_motion(Direction::Up));
            try_push(unclearable, &mut mark, &mut pending, item.apply_motion(Direction::Down));
            proof {
                let n1 = moved_coord(item, Direction::Left);
                let n2 = moved_coord(item, Direction::Right);
                let n3 = moved_coord(item, Direction::Up);
                let n4 = moved_coord(item, Direction::Down);
                assert forall|c: Coord, d: Coord|
                    in_scan_bounds(c) && in_scan_bounds(d) && #[trigger] adjacent(c, d)
                        && #[trigger] mark@[idx(c)] == MARK_FOUND && !unclearable@[idx(
                        d,
                    )] implies mark@[idx(d)] != MARK_NONE by {
                    lemma_idx_in_range(d);
                    if c == item {
                        assert(d == n1 || d == n2 || d == n3 || d == n4);
                    } else {
                        lemma_idx_distinct(c, item);
                    }
                }
                // every other cell this step touched is a freshly queued
                // neighbor of the item
                assert forall|c: Coord|
                    in_scan_bounds(c) && #[trigger] mark@[idx(c)] != m0[idx(c)] && c
                        != item implies mark@[idx(c)] == MARK_QUEUED && m0[idx(c)] == MARK_NONE
                    && adjacent(item, c) by {
                    lemma_idx_in_range(c);
                    lemma_idx_distinct(c, item);
                    if in_scan_bounds(n1) && idx(c) == idx(n1) && c != n1 {
                        lemma_idx_distinct(c, n1);
                    }
                    if in_scan_bounds(n2) && idx(c) == idx(n2) && c != n2 {
                        lemma_idx_distinct(c, n2);
                    }
                    if in_scan_bounds(n3) && idx(c) == idx(n3) && c != n3 {
                        lemma_idx_distinct(c, n3);
                    }
                    if in_scan_bounds(n4) && idx(c) == idx(n4) && c != n4 {
                        lemma_idx_distinct(c, n4);
                    }
                    assert(c == n1 || c == n2 || c == n3 || c == n4);
                }
                lemma_flood_step_found(board@, blob_color, start, m0, mark@, item);
            }
        }
        proof {
            if item != start && mark@[idx(start)] == MARK_QUEUED {
                let w = choose|w: int| 0 <= w < prev_pending.len() && prev_pending[w] == start;
                assert(pending@[w] == start);
                assert(pending@.contains(start));
            }
            lemma_count_val_bound(mark@, MARK_NONE);
        }
    }
    proof {
        lemma_count_val_pos(mark@, MARK_FOUND, idx(start));
        lemma_count_val_two_bound(mark@, MARK_FOUND, MARK_GARBAGE);
        assert forall|c: Coord, d: Coord|
            in_scan_bounds(c) && in_scan_bounds(d) && #[trigger] adjacent(c, d)
                && #[trigger] mark@[idx(c)] == MARK_FOUND && board@[idx(d)] == blob_color
                && !unclearable@[idx(d)] implies mark@[idx(d)] == MARK_FOUND by {
            lemma_idx_in_range(d);
            if mark@[idx(d)] == MARK_QUEUED {
                lemma_count_val_pos(mark@, MARK_QUEUED, idx(d));
            }
        }
        assert forall|c: Coord, d: Coord|
            in_scan_bounds(c) && in_scan_bounds(d) && #[trigger] adjacent(c, d)
                && #[trigger] mark@[idx(c)] == MARK_FOUND && board@[idx(d)] == Color::Garbage
                && !unclearable@[idx(d)] implies mark@[idx(d)] == MARK_GARBAGE by {
            lemma_idx_in_range(d);
            if mark@[idx(d)] == MARK_QUEUED {
                lemma_count_val_pos(mark@, MARK_QUEUED, idx(d));
            }
        }
        assert forall|s: Set<Coord>, f: Coord, g: Coord|
            region_closed(board@, blob_color, s) && in_scan_bounds(f) && #[trigger] s.contains(f)
                && mark@[idx(f)] == MARK_FOUND && in_scan_bounds(g) && #[trigger] mark@[idx(g)]
                == MARK_FOUND implies s.contains(g) by {
            assert(blob_marked(board@, blob_color, mark@, f));
            assert(blob_marked(board@, blob_color, mark@, g));
        }
    }
    (mark, fcount, gcount)
}

/// Both cells of `pos` are free on `b`.
pub open spec fn pos_free(b: Seq<Color>, pos: Puyo<Coord>) -> bool {
    &&& in_bounds(pos.pivot) && b[idx(pos.pivot)] == Color::Empty
    &&& in_bounds(pos.wheel) && b[idx(pos.wheel)] == Color::Empty
}

/// `b` with the piece's two cells blanked out.
pub open spec fn lift(b: Seq<Color>, pos: Puyo<Coord>) -> Seq<Color> {
    b.update(idx(pos.pivot), Color::Empty).update(idx(pos.wheel), Color::Empty)
}

/// `b` with the piece's colors written at `pos`, pivot first.
pub open spec fn place(b: Seq<Color>, pos: Puyo<Coord>, colors: Puyo<Color>) -> Seq<Color> {
    b.update(idx(pos.pivot), colors.pivot).update(idx(pos.wheel), colors.wheel)
}

/// The colors `b` holds at the piece's two cells.
pub open spec fn colors_of(b: Seq<Color>, pos: Puyo<Coord>) -> Puyo<Color> {
    Puyo { pivot: b[idx(pos.pivot)], wheel: b[idx(pos.wheel)] }
}

/// A piece's two cells are distinct in-bounds positions.
pub open spec fn piece_cells_ok(pos: Puyo<Coord>) -> bool {
    in_bounds(pos.pivot) && in_bounds(pos.wheel) && pos.pivot != pos.wheel
}

/// Lifting a piece off the board and writing its colors at a free position
/// moves cells without creating or destroying any.
proof fn lemma_move_preserves_count(b: Seq<Color>, p: Puyo<Coord>, q: Puyo<Coord>)
    requires
        board_wf(b),
        piece_cells_ok(p),
        piece_cells_ok(q),
        pos_free(lift(b, p), q),
    ensures
        count_nonempty(place(lift(b, p), q, colors_of(b, p))) == count_nonempty(b),
{
    let ip = idx(p.pivot);
    let iw = idx(p.wheel);
    let jp = idx(q.pivot);
    let jw = idx(q.wheel);
    lemma_idx_distinct(p.pivot, p.wheel);
    lemma_idx_distinct(q.pivot, q.wheel);
    lemma_idx_in_range(p.pivot);
    lemma_idx_in_range(p.wheel);
    lemma_idx_in_range(q.pivot);
    lemma_idx_in_range(q.wheel);
    let b1 = b.update(ip, Color::Empty);
    let b2 = b1.update(iw, Color::Empty);
    let b3 = b2.update(jp, b[ip]);
    let b4 = b3.update(jw, b[iw]);
    lemma_count_nonempty_update(b, ip, Color::Empty);
    lemma_count_nonempty_update(b1, iw, Color::Empty);
    lemma_count_nonempty_update(b2, jp, b[ip]);
    lemma_count_nonempty_update(b3, jw, b[iw]);
}

/// Writing a piece's own colors back where they were lifted restores the
/// board exactly.
proof fn lemma_restore(b: Seq<Color>, p: Puyo<Coord>)
    requires
        board_wf(b),
        piece_cells_ok(p),
    ensures
        place(lift(b, p), p, colors_of(b, p)) == b,
{
    lemma_idx_distinct(p.pivot, p.wheel);
    lemma_idx_in_range(p.pivot);
    lemma_idx_in_range(p.wheel);
    assert(place(lift(b, p), p, colors_of(b, p)) =~= b);
}

/// What a queued rotation first tries: a double press flips a vertical
/// piece, anything else is a single quarter turn clockwise.
pub open spec fn rotation_candidate(p: Puyo<Coord>, rot: Rotation) -> Puyo<Coord> {
    if rot == Rotation::Double && p.spec_is_vertical() {
        flipped_piece(p)
    } else {
        rotated_piece(p)
    }
}

/// Where a queued rotation leaves the piece, on the board with the piece
/// lifted off: the candidate itself when its wheel lands free, else a
/// floor kick for a vertical outcome or a wall kick for a horizontal one,
/// and `None` when the kicked position is blocked and the rotation is
/// denied.
pub open spec fn rotation_result(b: Seq<Color>, p: Puyo<Coord>, rot: Rotation) -> Option<
    Puyo<Coord>,
> {
    let l = lift(b, p);
    let c0 = rotation_candidate(p, rot);
    if in_bounds(c0.wheel) && l[idx(c0.wheel)] == Color::Empty {
        Some(c0)
    } else if c0.wheel.x == c0.pivot.x {
        let c1 = moved_piece(c0, Direction::Up);
        if pos_free(l, c1) {
            Some(c1)
        } else {
            None
        }
    } else {
        let c1 = moved_piece(
            c0,
            if motion_to_spec(c0.pivot, c0.wheel) == Direction::Left {
                Direction::Right
            } else {
                Direction::Left
            },
        );
        if in_bounds(c1.pivot) && l[idx(c1.pivot)] == Color::Empty {
            Some(c1)
        } else {
            None
        }
    }
}

/// A set of cells closed under taking same-`color` neighbors inside the
/// scan rows: once a cell is in, every adjacent cell of that color is too.
/// The 4-connected component of any member is contained in every such set.
pub open spec fn region_closed(b: Seq<Color>, color: Color, s: Set<Coord>) -> bool {
    forall|c: Coord, d: Coord|
        #![trigger s.contains(c), adjacent(c, d)]
        s.contains(c) && in_scan_bounds(d) && adjacent(c, d) && b[idx(d)] == color ==> s.contains(
            d,
        )
}

/// The cells `{c1, c2, c3}` (repeats allowed) all carry one color, and no
/// other cell of that color touches any of them: a same-color region of at
/// most three cells, closed under 4-adjacency within the scan rows. A cell
/// with such a witness belongs to a group too small ever to clear.
pub open spec fn small_region(b: Seq<Color>, c1: Coord, c2: Coord, c3: Coord) -> bool {
    &&& in_scan_bounds(c1) && in_scan_bounds(c2) && in_scan_bounds(c3)
    &&& b[idx(c2)] == b[idx(c1)] && b[idx(c3)] == b[idx(c1)]
    &&& forall|d: Coord|
        #![trigger adjacent(c1, d)]
        #![trigger adjacent(c2, d)]
        #![trigger adjacent(c3, d)]
        in_scan_bounds(d) && b[idx(d)] == b[idx(c1)] && (adjacent(c1, d) || adjacent(c2, d)
            || adjacent(c3, d)) ==> d == c1 || d == c2 || d == c3
}

/// Three found cells that exhaust the group form a closed region: the
/// flood's maximality stops at them, and memoized neighbors would have
/// dragged the group itself into the memo.
proof fn lemma_found_is_region(
    b: Seq<Color>,
    unclearable: Seq<bool>,
    mark: Seq<u8>,
    blob: Color,
    c: Coord,
    e2: Coord,
    e3: Coord,
)
    requires
        b.len() == BOARD_CELLS,
        unclearable.len() == SCAN_CELLS,
        mark.len() == SCAN_CELLS,
        blob.spec_is_normal(),
        forall|i: int|
            0 <= i < SCAN_CELLS && #[trigger] mark[i] == MARK_FOUND ==> b[i] == blob
                && !unclearable[i],
        forall|cc: Coord, d: Coord|
            #![trigger adjacent(cc, d), mark[idx(cc)]]
            in_scan_bounds(cc) && in_scan_bounds(d) && adjacent(cc, d) && mark[idx(cc)]
                == MARK_FOUND && b[idx(d)] == blob && !unclearable[idx(d)] ==> mark[idx(d)]
                == MARK_FOUND,
        forall|cc: Coord, d: Coord|
            #![trigger unclearable[idx(cc)], adjacent(cc, d)]
            in_scan_bounds(cc) && in_scan_bounds(d) && adjacent(cc, d) && unclearable[idx(cc)]
                && b[idx(d)] == b[idx(cc)] ==> unclearable[idx(d)],
        forall|f: Coord|
            in_scan_bounds(f) && #[trigger] mark[idx(f)] == MARK_FOUND ==> f == c || f == e2 || f
                == e3,
        in_scan_bounds(c) && mark[idx(c)] == MARK_FOUND,
        in_scan_bounds(e2) && mark[idx(e2)] == MARK_FOUND,
        in_scan_bounds(e3) && mark[idx(e3)] == MARK_FOUND,
    ensures
        small_region(b, c, e2, e3),
{
    assert forall|d: Coord|
        in_scan_bounds(d) && b[idx(d)] == b[idx(c)] && (adjacent(c, d) || adjacent(e2, d)
            || adjacent(e3, d)) implies d == c || d == e2 || d == e3 by {
        let m = if adjacent(c, d) {
            c
        } else if adjacent(e2, d) {
            e2
        } else {
            e3
        };
        assert(in_scan_bounds(m) && mark[idx(m)] == MARK_FOUND && adjacent(m, d));
        if unclearable[idx(d)] {
            assert(adjacent(d, m));
            assert(unclearable[idx(m)]);
            assert(false);
        }
        assert(mark[idx(d)] == MARK_FOUND);
    }
}

/// A flood that found fewer than four cells found a whole region: the
/// memoized group is closed under same-color adjacency, so each of its
/// cells carries a witness that its region can never clear.
#[verifier::rlimit(100)]
#[verifier::spinoff_prover]
proof fn lemma_group_is_small_region(
    b: Seq<Color>,
    unclearable: Seq<bool>,
    mark: Seq<u8>,
    blob: Color,
)
    requires
        board_wf(b),
        unclearable.len() == SCAN_CELLS,
        mark.len() == SCAN_CELLS,
        blob.spec_is_normal(),
        forall|i: int|
            0 <= i < SCAN_CELLS && #[trigger] mark[i] == MARK_FOUND ==> b[i] == blob
                && !unclearable[i],
        forall|c: Coord, d: Coord|
            #![trigger adjacent(c, d), mark[idx(c)]]
            in_scan_bounds(c) && in_scan_bounds(d) && adjacent(c, d) && mark[idx(c)] == MARK_FOUND
                && b[idx(d)] == blob && !unclearable[idx(d)] ==> mark[idx(d)] == MARK_FOUND,
        forall|c: Coord, d: Coord|
            #![trigger unclearable[idx(c)], adjacent(c, d)]
            in_scan_bounds(c) && in_scan_bounds(d) && adjacent(c, d) && unclearable[idx(c)]
                && b[idx(d)] == b[idx(c)] ==> unclearable[idx(d)],
        count_val(mark, MARK_FOUND) < 4,
    ensures
        forall|c: Coord|
            in_scan_bounds(c) && #[trigger] mark[idx(c)] == MARK_FOUND ==> exists|
                c2: Coord,
                c3: Coord,
            | small_region(b, c, c2, c3),
{
    assert forall|c: Coord|
        in_scan_bounds(c) && #[trigger] mark[idx(c)] == MARK_FOUND implies exists|
        c2: Coord,
        c3: Coord,
    | small_region(b, c, c2, c3) by {
        let e2 = if exists|e: Coord|
            in_scan_bounds(e) && #[trigger] mark[idx(e)] == MARK_FOUND && e != c {
            choose|e: Coord| in_scan_bounds(e) && #[trigger] mark[idx(e)] == MARK_FOUND && e != c
        } else {
            c
        };
        let e3 = if exists|e: Coord|
            in_scan_bounds(e) && #[trigger] mark[idx(e)] == MARK_FOUND && e != c && e != e2 {
            choose|e: Coord|
                in_scan_bounds(e) && #[trigger] mark[idx(e)] == MARK_FOUND && e != c && e != e2
        } else {
            c
        };
        assert forall|f: Coord|
            in_scan_bounds(f) && #[trigger] mark[idx(f)] == MARK_FOUND implies f == c || f == e2
            || f == e3 by {
            if f != c && f != e2 && f != e3 {
                assert(in_scan_bounds(e2) && mark[idx(e2)] == MARK_FOUND && e2 != c);
                assert(in_scan_bounds(e3) && mark[idx(e3)] == MARK_FOUND && e3 != c && e3 != e2);
                lemma_idx_distinct(c, e2);
                lemma_idx_distinct(c, e3);
                lemma_idx_distinct(c, f);
                lemma_idx_distinct(e2, e3);
                lemma_idx_distinct(e2, f);
                lemma_idx_distinct(e3, f);
                lemma_idx_in_range(c);
                lemma_idx_in_range(e2);
                lemma_idx_in_range(e3);
                lemma_idx_in_range(f);
                lemma_count_val_four(
                    mark,
                    MARK_FOUND,
                    MARK_NONE,
                    idx(c),
                    idx(e2),
                    idx(e3),
                    idx(f),
                );
            }
        }
        lemma_found_is_region(b, unclearable, mark, blob, c, e2, e3);
        assert(small_region(b, c, e2, e3));
    }
}

/// A found cell whose region has a three-cell witness on the board the
/// scan started from caps the whole group at three cells: the witness set
/// is still closed mid-scan, and the flood confines itself to closed
/// sets.
#[verifier::rlimit(100)]
#[verifier::spinoff_prover]
proof fn lemma_witnessed_survives(
    bold: Seq<Color>,
    b0: Seq<Color>,
    mark: Seq<u8>,
    blob: Color,
    c: Coord,
    c2: Coord,
    c3: Coord,
)
    requires
        bold.len() == BOARD_CELLS,
        b0.len() == BOARD_CELLS,
        mark.len() == SCAN_CELLS,
        blob.spec_is_normal(),
        forall|i: int|
            0 <= i < BOARD_CELLS && #[trigger] b0[i] != bold[i] ==> b0[i] == Color::Empty
                && bold[i] != Color::Empty,
        small_region(bold, c, c2, c3),
        in_scan_bounds(c),
        mark[idx(c)] == MARK_FOUND,
        bold[idx(c)] == blob,
        forall|i: int| 0 <= i < SCAN_CELLS && #[trigger] mark[i] == MARK_FOUND ==> b0[i] == blob,
        forall|s: Set<Coord>, f: Coord, g: Coord|
            #![trigger s.contains(f), mark[idx(g)]]
            region_closed(b0, blob, s) && in_scan_bounds(f) && mark[idx(f)] == MARK_FOUND
                && s.contains(f) && in_scan_bounds(g) && mark[idx(g)] == MARK_FOUND ==> s.contains(
                g,
            ),
    ensures
        count_val(mark, MARK_FOUND) <= 3,
{
    let s3 = Set::empty().insert(c).insert(c2).insert(c3);
    assert forall|e: Coord, d: Coord|
        #[trigger] s3.contains(e) && in_scan_bounds(d) && #[trigger] adjacent(e, d) && b0[idx(d)]
            == blob implies s3.contains(d) by {
        lemma_idx_in_range(d);
        assert(b0[idx(d)] != Color::Empty);
        assert(bold[idx(d)] == blob);
        assert(e == c || e == c2 || e == c3);
        assert(bold[idx(d)] == bold[idx(c)]);
        assert(d == c || d == c2 || d == c3);
    }
    assert(region_closed(b0, blob, s3));
    assert(s3.contains(c));
    assert forall|j: int|
        0 <= j < SCAN_CELLS && #[trigger] mark[j] == MARK_FOUND implies j == idx(c) || j == idx(
        c2,
    ) || j == idx(c3) by {
        let g = Coord { x: (j % 6) as i32, y: (j / 6) as i32 };
        assert(in_scan_bounds(g));
        assert(idx(g) == j);
        assert(mark[idx(g)] == MARK_FOUND);
        assert(s3.contains(g));
        assert(g == c || g == c2 || g == c3);
    }
    lemma_idx_in_range(c);
    lemma_idx_in_range(c2);
    lemma_idx_in_range(c3);
    lemma_count_val_three_cap(mark, MARK_FOUND, MARK_NONE, idx(c), idx(c2), idx(c3));
}

/// The buffered motion intent can never become `Up`: an arriving `Up`
/// either cancels a buffered `Down` or leaves the buffer alone.
pub proof fn lemma_up_never_buffered(existing: Direction, incoming: Direction)
    requires
        existing != Direction::Up,
    ensures
        merge_motion(existing, incoming) != Direction::Up,
{
}

/// Garbage conservation: in every well-formed state, the garbage ever
/// received equals what is still pending, plus what was written onto the
/// board, plus what was cancelled against this board's own score. Every
/// engine operation preserves well-formedness, so this holds across any
/// sequence of ticks and exchanges.
pub proof fn lemma_garbage_conserved(g: &Game)
    requires
        g.wf(),
    ensures
        g.garbage_added@ == g.incoming_garbage + g.garbage_placed@ + g.garbage_netted@,
{
}

/// Rotation safety: whatever the board holds, an accepted rotation lands
/// the piece on two distinct grid cells that are free once the piece's own
/// prior cells are discounted — never outside the grid and never on an
/// occupied cell that is not the piece itself. A denied rotation yields no
/// position at all, and the engine then restores the piece exactly.
pub proof fn lemma_rotation_safe(b: Seq<Color>, p: Puyo<Coord>, rot: Rotation)
    requires
        board_wf(b),
        piece_cells_ok(p),
        adjacent(p.pivot, p.wheel),
    ensures
        rotation_result(b, p, rot) matches Some(q) ==> piece_cells_ok(q) && pos_free(
            lift(b, p),
            q,
        ),
{
    lemma_idx_distinct(p.pivot, p.wheel);
    lemma_idx_in_range(p.pivot);
    lemma_idx_in_range(p.wheel);
    if rotation_result(b, p, rot) is Some {
        let l = lift(b, p);
        let c0 = rotation_candidate(p, rot);
        let q = rotation_result(b, p, rot)->Some_0;
        assert(c0.pivot == p.pivot);
        assert(adjacent(c0.pivot, c0.wheel));
        if in_bounds(c0.wheel) && l[idx(c0.wheel)] == Color::Empty {
            assert(l[idx(p.pivot)] == Color::Empty);
        } else if c0.wheel.x == c0.pivot.x {
            assert(pos_free(l, q));
            assert(q.pivot != q.wheel);
        } else {
            assert(q.wheel == p.pivot);
            assert(l[idx(p.pivot)] == Color::Empty);
        }
    }
}

/// How a newly arriving motion intent merges into the buffered one.
/// Repeats keep the direction; `Up` only cancels a buffered `Down`;
/// `Still` changes nothing; `Down` yields to anything already buffered;
/// `Left` and `Right` cancel each other.
pub open spec fn merge_motion(existing: Direction, incoming: Direction) -> Direction {
    if existing == incoming {
        existing
    } else if incoming == Direction::Up {
        if existing == Direction::Down {
            Direction::Still
        } else {
            existing
        }
    } else if existing == Direction::Still {
        incoming
    } else if incoming == Direction::Still {
        existing
    } else if incoming == Direction::Down {
        existing
    } else if existing == Direction::Down {
        incoming
    } else {
        // Left meets Right or Right meets Left.
        Direction::Still
    }
}

impl Game {
    /// The engine's invariant. Beyond shape and range facts it carries the
    /// two conservation laws the garbage economy rests on: cleared cells
    /// tallied in the chain accumulator all came off the board, and every
    /// unit of garbage ever received is either still pending, on the board,
    /// or was cancelled against this board's own score.
    pub open spec fn wf(&self) -> bool {
        &&& board_wf(self.board@)
        &&& board_wf(self.front_board@)
        &&& self.excluded_color.spec_is_normal()
        &&& self.motion != Direction::Up
        &&& self.tick_num <= 50
        &&& self.garbage_column_index < BOARD_WIDTH
        &&& match self.current {
            Some(p) => in_bounds(p.pivot) && in_bounds(p.wheel) && adjacent(p.pivot, p.wheel),
            None => true,
        }
        &&& self.chain.wf()
        &&& self.chain.total_cleared + count_nonempty(self.board@) <= BOARD_CELLS
        &&& 4 * self.chain.num_chains <= self.chain.total_cleared
        &&& self.garbage_added@ == self.incoming_garbage + self.garbage_placed@
            + self.garbage_netted@
    }

    pub fn new() -> (r: Game)
        ensures
            r.wf(),
            !r.is_over,
            r.current is None,
            r.motion == Direction::Still,
            r.rotate == Rotation::Zero,
            r.incoming_garbage == 0,
            r.outgoing_garbage == 0,
            r.chain.is_reset(),
            r.chain.leftover == 0,
            forall|i: int| 0 <= i < BOARD_CELLS ==> r.board@[i] == Color::Empty,
            forall|i: int| 0 <= i < BOARD_CELLS ==> r.front_board@[i] == r.excluded_color,
            r.next.pivot.spec_is_normal() && r.next.wheel.spec_is_normal(),
            r.next.pivot != r.excluded_color && r.next.wheel != r.excluded_color,
            r.garbage_added@ == 0 && r.garbage_placed@ == 0 && r.garbage_netted@ == 0,
    {
        let excluded_color = Color::any();
        let board = filled(BOARD_CELLS, Color::Empty);
        let front_board = filled(BOARD_CELLS, excluded_color);
        proof {
            lemma_count_val_all(board@, Color::Empty);
        }
        Game {
            is_over: false,
            tick_num: 50,
            front_board,
            board,
            excluded_color,
            current: None,
            next: Puyo::<Color>::from_excluded(excluded_color),
            chain: ChainTracker::new(),
            incoming_garbage: 0,
            garbage_column_index: 0,
            motion: Direction::Still,
            rotate: Rotation::Zero,
            outgoing_garbage: 0,
            garbage_added: Ghost(0),
            garbage_placed: Ghost(0),
            garbage_netted: Ghost(0),
        }
    }

    pub fn is_over(&self) -> (r: bool)
        ensures
            r == self.is_over,
    {
        self.is_over
    }

    /// The colors the next piece will spawn with, pivot first.
    pub fn next_puyo(&self) -> (r: (Color, Color))
        ensures
            r.0 == self.next.pivot && r.1 == self.next.wheel,
    {
        (*self.next.pivot(), *self.next.wheel())
    }

    /// Buffer a motion intent, merging it into whatever is already queued.
    pub fn move_(&mut self, motion: Direction)
        requires
            old(self).motion != Direction::Up,
        ensures
            final(self).motion == merge_motion(old(self).motion, motion),
            *final(self) == (Game { motion: final(self).motion, ..*old(self) }),
            old(self).wf() ==> final(self).wf(),
    {
        self.motion = match (self.motion, motion) {
            (Direction::Left, Direction::Left) => Direction::Left,
            (Direction::Right, Direction::Right) => Direction::Right,
            (Direction::Down, Direction::Down) => Direction::Down,
            (Direction::Down, Direction::Up) => Direction::Still,
            (existing, Direction::Up) => existing,
            (Direction::Still, something) => something,
            (existing, Direction::Still) => existing,
            (existing, Direction::Down) => existing,
            (Direction::Down, something) => something,
            (Direction::Left, Direction::Right) => Direction::Still,
            (Direction::Right, Direction::Left) => Direction::Still,
            (Direction::Up, _) => Direction::Still,
        };
    }

    /// Buffer a rotation press: presses queue as none, single, double, and
    /// never beyond; they are ignored while no piece is under control.
    pub fn rotate(&mut self)
        ensures
            old(self).current is Some ==> final(self).rotate == (match old(self).rotate {
                Rotation::Zero => Rotation::Single,
                _ => Rotation::Double,
            }),
            old(self).current is None ==> final(self).rotate == old(self).rotate,
            *final(self) == (Game { rotate: final(self).rotate, ..*old(self) }),
            old(self).wf() ==> final(self).wf(),
    {
        if self.current.is_some() {
            self.rotate = match self.rotate {
                Rotation::Zero => Rotation::Single,
                _ => Rotation::Double,
            };
        }
    }

    pub fn pending_garbage(&self) -> (r: u32)
        ensures
            r == self.incoming_garbage,
    {
        self.incoming_garbage
    }

    /// Receive garbage from the opposing board.
    pub fn add_garbage(&mut self, amount: u32)
        requires
            old(self).incoming_garbage + amount <= u32::MAX,
        ensures
            final(self).incoming_garbage == old(self).incoming_garbage + amount,
            final(self).garbage_added@ == old(self).garbage_added@ + amount,
            *final(self) == (Game {
                incoming_garbage: final(self).incoming_garbage,
                garbage_added: final(self).garbage_added,
                ..*old(self)
            }),
            old(self).wf() ==> final(self).wf(),
    {
        self.incoming_garbage = self.incoming_garbage + amount;
        proof {
            self.garbage_added@ = (self.garbage_added@ + amount) as nat;
        }
    }

    /// Drain the garbage queued for the opposing board.
    pub fn get_garbage(&mut self) -> (r: u32)
        ensures
            r == old(self).outgoing_garbage,
            final(self).outgoing_garbage == 0,
            *final(self) == (Game { outgoing_garbage: 0, ..*old(self) }),
            old(self).wf() ==> final(self).wf(),
    {
        let value = self.outgoing_garbage;
        self.outgoing_garbage = 0;
        value
    }

    /// Whether `coord` is a free cell: out-of-bounds positions count as
    /// occupied, which blocks motion and spawning at the edges without any
    /// special casing.
    pub fn is_empty(&self, coord: &Coord) -> (r: bool)
        requires
            board_wf(self.board@),
        ensures
            r == (in_bounds(*coord) && self.board@[idx(*coord)] == Color::Empty),
    {
        if coord.x < 0 || coord.y < 0 {
            return false;
        }
        let x = coord.x as usize;
        let y = coord.y as usize;
        if x >= BOARD_WIDTH || y >= BOARD_HEIGHT {
            return false;
        }
        self.board[y * BOARD_WIDTH + x] == Color::Empty
    }

    /// Write `color` at `coord` and hand back what was there.
    fn swap_color(&mut self, coord: &Coord, color: Color) -> (orig: Color)
        requires
            board_wf(old(self).board@),
            in_bounds(*coord),
        ensures
            orig == old(self).board@[idx(*coord)],
            final(self).board@ == old(self).board@.update(idx(*coord), color),
            *final(self) == (Game { board: final(self).board, ..*old(self) }),
    {
        let i = (coord.y as usize) * BOARD_WIDTH + (coord.x as usize);
        let orig = self.board[i];
        self.board[i] = color;
        orig
    }

    /// Write a piece's two colors at its two cells, pivot first, and hand
    /// back what the two cells held.
    fn swap_puyo(&mut self, pos: &Puyo<Coord>, colors: Puyo<Color>) -> (orig: Puyo<Color>)
        requires
            board_wf(old(self).board@),
            in_bounds(pos.pivot),
            in_bounds(pos.wheel),
        ensures
            orig.pivot == old(self).board@[idx(pos.pivot)],
            orig.wheel == old(self).board@.update(idx(pos.pivot), colors.pivot)[idx(pos.wheel)],
            final(self).board@ == old(self).board@.update(idx(pos.pivot), colors.pivot).update(
                idx(pos.wheel),
                colors.wheel,
            ),
            *final(self) == (Game { board: final(self).board, ..*old(self) }),
    {
        let p = self.swap_color(pos.pivot(), *colors.pivot());
        let w = self.swap_color(pos.wheel(), *colors.wheel());
        Puyo::<Color>::new(p, w)
    }

    /// Advance the game by one discrete unit of time. A finished game is
    /// left untouched. Otherwise the sub-tick counter steps through 0..=50
    /// and the phases run in strict priority order, the first phase that
    /// acts ending the tick: buffered motion, buffered rotation, the
    /// controlled piece's descent (one row per full counter cycle; a
    /// controlled piece always consumes the tick), and then, on every
    /// fourth sub-tick only: gravity, clear detection, score conversion
    /// (which never ends the tick), garbage drop, and piece spawn.
    #[verifier::rlimit(100)]
    #[verifier::spinoff_prover]
    pub fn tick(&mut self)
        requires
            old(self).wf(),
        ensures
            final(self).wf(),
            old(self).is_over ==> *final(self) == *old(self),
            !old(self).is_over ==> final(self).tick_num == (if old(self).tick_num >= 50 {
                0int
            } else {
                old(self).tick_num + 1
            }),
            final(self).garbage_added@ == old(self).garbage_added@,
            final(self).garbage_placed@ >= old(self).garbage_placed@,
            final(self).garbage_netted@ >= old(self).garbage_netted@,
            !old(self).is_over && old(self).motion != Direction::Still ==> (old(self).current
                matches Some(p) ==> (pos_free(
                lift(old(self).board@, p),
                moved_piece(p, old(self).motion),
            ) ==> {
                &&& final(self).board@ == place(
                    lift(old(self).board@, p),
                    moved_piece(p, old(self).motion),
                    colors_of(old(self).board@, p),
                )
                &&& final(self).current == Some(moved_piece(p, old(self).motion))
                &&& final(self).motion == Direction::Still
                &&& final(self).chain == old(self).chain
            })),
            ({
                let bumped: int = if old(self).tick_num >= 50 {
                    0
                } else {
                    old(self).tick_num + 1
                };
                (!old(self).is_over && old(self).current is None && old(self).motion
                    == Direction::Still && old(self).rotate == Rotation::Zero && settled(
                    old(self).board@,
                ) && bumped % 4 == 0 && (exists|c: Coord|
                    in_scan_bounds(c) && (#[trigger] old(self).board@[idx(c)]).spec_is_normal()
                        && (forall|c2: Coord, c3: Coord|
                        !small_region(old(self).board@, c, c2, c3)))) ==> {
                    &&& final(self).chain.num_chains == old(self).chain.num_chains + 1
                    &&& final(self).chain.total_cleared >= old(self).chain.total_cleared + 4
                    &&& final(self).chain.leftover == old(self).chain.leftover
                }
            }),
    {
        if self.is_over {
            return ;
        }
        self.tick_num = self.tick_num + 1;
        if self.tick_num > 50 {
            self.tick_num = 0;
        }
        if self.check_motion() {
            return ;
        }
        if self.check_rotation() {
            return ;
        }
        let full = self.tick_num == 0;
        if self.check_drop(full) {
            return ;
        }
        if self.tick_num % 4 != 0 {
            return ;
        }
        if self.check_gravity() {
            return ;
        }
        let cleared = self.check_chains();
        proof {
            let b0 = old(self).board@;
            let bumped: int = if old(self).tick_num >= 50 {
                0
            } else {
                old(self).tick_num + 1
            };
            if !cleared && !old(self).is_over && old(self).current is None && old(self).motion
                == Direction::Still && old(self).rotate == Rotation::Zero && settled(b0) && bumped
                % 4 == 0 {
                if exists|c: Coord|
                    in_scan_bounds(c) && (#[trigger] b0[idx(c)]).spec_is_normal() && (forall|
                        c2: Coord,
                        c3: Coord,
                    | !small_region(b0, c, c2, c3)) {
                    let c = choose|c: Coord|
                        in_scan_bounds(c) && (#[trigger] b0[idx(c)]).spec_is_normal() && (forall|
                            c2: Coord,
                            c3: Coord,
                        | !small_region(b0, c, c2, c3));
                    assert(exists|c2: Coord, c3: Coord| small_region(b0, c, c2, c3));
                    assert(false);
                }
            }
        }
        if cleared {
            return ;
        }
        if self.apply_score() {
            return ;
        }
        if self.spawn_garbage() {
            return ;
        }
        if self.spawn_puyo() {
            return ;
        }
    }

    /// A drawing stream positioned at the top-left cell: the diff between
    /// the grid the presentation layer last acknowledged and the live grid.
    pub fn render(&self) -> (r: Renderer)
        requires
            self.wf(),
        ensures
            r.wf(),
            r.stream_wf(),
            r.front@ == self.front_board@,
            r.back@ == self.board@,
            r.canvas@ == self.front_board@,
            r.at_start && !r.at_end && !r.paint_current,
    {
        Renderer::new(&self.front_board, &self.board)
    }

    /// Advance the acknowledged snapshot to the current grid, so the next
    /// diff starts from what the presentation layer has drawn.
    pub fn finish_render(&mut self)
        requires
            board_wf(old(self).board@),
            board_wf(old(self).front_board@),
        ensures
            final(self).front_board@ == old(self).board@,
            *final(self) == (Game { front_board: final(self).front_board, ..*old(self) }),
            old(self).wf() ==> final(self).wf(),
    {
        let mut i: usize = 0;
        while i < BOARD_CELLS
            invariant
                board_wf(self.board@),
                board_wf(self.front_board@),
                i <= BOARD_CELLS,
                forall|j: int| 0 <= j < i ==> self.front_board@[j] == self.board@[j],
                self.board@ == old(self).board@,
                *self == (Game { front_board: self.front_board, ..*old(self) }),
            decreases BOARD_CELLS - i,
        {
            let c = self.board[i];
            self.front_board[i] = c;
            i = i + 1;
        }
        proof {
            assert(self.front_board@ =~= old(self).board@);
        }
    }

    /// Commit a piece to `pos` if both cells are free; otherwise put its
    /// colors back where the piece was. Either way the piece stays under
    /// control at wherever its colors ended up.
    fn check_new_pos(&mut self, pos: Puyo<Coord>, colors: Puyo<Color>) -> (valid: bool)
        requires
            board_wf(old(self).board@),
            old(self).current is Some,
            piece_cells_ok(old(self).current->Some_0),
        ensures
            valid == pos_free(old(self).board@, pos),
            valid ==> final(self).board@ == place(old(self).board@, pos, colors) && final(self).current == Some(pos),
            !valid ==> final(self).board@ == place(
                old(self).board@,
                old(self).current->Some_0,
                colors,
            ) && final(self).current == old(self).current,
            *final(self) == (Game {
                board: final(self).board,
                current: final(self).current,
                ..*old(self)
            }),
    {
        let mut pos = pos;
        let mut valid = true;
        if !(self.is_empty(pos.pivot()) && self.is_empty(pos.wheel())) {
            valid = false;
            pos = self.current.unwrap();
        }
        self.swap_puyo(&pos, colors);
        self.current = Some(pos);
        valid
    }

    /// Consume the buffered motion intent, if any, and try to move the
    /// piece one step that way. The intent is consumed whether or not a
    /// piece is under control; a blocked move leaves the board unchanged.
    pub fn check_motion(&mut self) -> (r: bool)
        requires
            old(self).wf(),
        ensures
            final(self).wf(),
            old(self).motion == Direction::Still ==> !r && *final(self) == *old(self),
            old(self).motion != Direction::Still && old(self).current is None ==> !r && *final(self) == (Game { motion: Direction::Still, ..*old(self) }),
            old(self).motion != Direction::Still ==> (old(self).current matches Some(p) ==> {
                let q = moved_piece(p, old(self).motion);
                let lifted = lift(old(self).board@, p);
                &&& r == pos_free(lifted, q)
                &&& r ==> final(self).board@ == place(lifted, q, colors_of(old(self).board@, p))
                    && final(self).current == Some(q)
                &&& !r ==> final(self).board@ == old(self).board@ && final(self).current == old(self).current
                &&& *final(self) == (Game {
                    motion: Direction::Still,
                    board: final(self).board,
                    current: final(self).current,
                    ..*old(self)
                })
            }),
    {
        if let Direction::Still = self.motion {
            return false;
        }
        let motion = self.motion;
        self.motion = Direction::Still;
        let puyo_pos = match &self.current {
            Some(current) => *current,
            None => { return false },
        };
        proof {
            lemma_idx_distinct(puyo_pos.pivot, puyo_pos.wheel);
            lemma_idx_in_range(puyo_pos.pivot);
            lemma_idx_in_range(puyo_pos.wheel);
        }
        let puyo_colors = self.swap_puyo(&puyo_pos, Puyo::<Color>::empty());
        let mut moved = puyo_pos;
        moved.move_(motion);
        let r = self.check_new_pos(moved, puyo_colors);
        proof {
            let b = old(self).board@;
            let p = puyo_pos;
            let q = moved_piece(p, motion);
            assert(puyo_colors == colors_of(b, p));
            if r {
                lemma_move_preserves_count(b, p, q);
            } else {
                lemma_restore(b, p);
            }
        }
        r
    }

    /// One gravity pass: in every column, every occupied cell directly
    /// above an empty one falls one row; a column of cells above a gap all
    /// shift down together. Cells are moved, never created or destroyed.
    /// Reports whether anything fell; when nothing did, the board has
    /// reached gravity's fixed point.
    #[verifier::rlimit(100)]
    #[verifier::spinoff_prover]
    pub fn check_gravity(&mut self) -> (r: bool)
        requires
            old(self).wf(),
        ensures
            final(self).wf(),
            count_nonempty(final(self).board@) == count_nonempty(old(self).board@),
            forall|x: int|
                0 <= x < BOARD_WIDTH ==> col_seq(final(self).board@, x) == grav_upto(
                    col_seq(old(self).board@, x),
                    BOARD_HEIGHT - 1,
                ),
            !r ==> final(self).board@ == old(self).board@ && settled(old(self).board@),
            r ==> final(self).board@ != old(self).board@,
            settled(old(self).board@) ==> !r,
            *final(self) == (Game { board: final(self).board, ..*old(self) }),
    {
        let mut did_something = false;
        let ghost mut witness: int = 0;
        let mut y: usize = 1;
        while y < BOARD_HEIGHT
            invariant
                old(self).wf(),
                1 <= y <= BOARD_HEIGHT,
                board_wf(self.board@),
                *self == (Game { board: self.board, ..*old(self) }),
                count_nonempty(self.board@) == count_nonempty(old(self).board@),
                !did_something ==> self.board@ == old(self).board@,
                did_something ==> !settled(old(self).board@),
                !did_something ==> forall|x2: int, y2: int|
                    0 <= x2 < BOARD_WIDTH && 0 <= y2 < y - 1 && #[trigger] at_xy(
                        self.board@,
                        x2,
                        y2,
                    ) == Color::Empty ==> at_xy(self.board@, x2, y2 + 1) == Color::Empty,
                did_something ==> 0 <= witness < (y - 1) * 6 && self.board@[witness] != old(self).board@[witness],
                forall|x2: int|
                    0 <= x2 < BOARD_WIDTH ==> col_seq(self.board@, x2) == grav_upto(
                        #[trigger] col_seq(old(self).board@, x2),
                        y - 1,
                    ),
            decreases BOARD_HEIGHT - y,
        {
            let mut x: usize = 0;
            while x < BOARD_WIDTH
                invariant
                    old(self).wf(),
                    1 <= y < BOARD_HEIGHT,
                    x <= BOARD_WIDTH,
                    board_wf(self.board@),
                    *self == (Game { board: self.board, ..*old(self) }),
                    count_nonempty(self.board@) == count_nonempty(old(self).board@),
                    !did_something ==> self.board@ == old(self).board@,
                    !did_something ==> forall|x2: int, y2: int|
                        0 <= x2 < BOARD_WIDTH && 0 <= y2 < y - 1 && #[trigger] at_xy(
                            self.board@,
                            x2,
                            y2,
                        ) == Color::Empty ==> at_xy(self.board@, x2, y2 + 1) == Color::Empty,
                    did_something ==> !settled(old(self).board@),
                    !did_something ==> forall|x2: int|
                        0 <= x2 < x && #[trigger] at_xy(self.board@, x2, y - 1) == Color::Empty
                            ==> at_xy(self.board@, x2, y as int) == Color::Empty,
                    did_something ==> 0 <= witness < (y - 1) * 6 + x && self.board@[witness]
                        != old(self).board@[witness],
                    forall|x2: int|
                        0 <= x2 < x ==> col_seq(self.board@, x2) == grav_upto(
                            #[trigger] col_seq(old(self).board@, x2),
                            y as int,
                        ),
                    forall|x2: int|
                        x <= x2 < BOARD_WIDTH ==> col_seq(self.board@, x2) == grav_upto(
                            #[trigger] col_seq(old(self).board@, x2),
                            y - 1,
                        ),
                decreases BOARD_WIDTH - x,
            {
                let below_i = (y - 1) * BOARD_WIDTH + x;
                let above_i = y * BOARD_WIDTH + x;
                let below = self.board[below_i];
                let above = self.board[above_i];
                let ghost colx = col_seq(old(self).board@, x as int);
                let ghost c = grav_upto(colx, y - 1);
                proof {
                    lemma_grav_upto_len(colx, y - 1);
                    assert(c[y - 1] == below && c[y as int] == above);
                }
                let ghost prev = self.board@;
                if below == Color::Empty && above != Color::Empty {
                    proof {
                        if !did_something {
                            assert(at_xy(old(self).board@, x as int, y - 1) == Color::Empty
                                && at_xy(old(self).board@, x as int, y as int) != Color::Empty);
                            assert(!settled(old(self).board@));
                        }
                        lemma_count_nonempty_update(self.board@, below_i as int, above);
                        lemma_count_nonempty_update(
                            self.board@.update(below_i as int, above),
                            above_i as int,
                            Color::Empty,
                        );
                        if !did_something {
                            witness = below_i as int;
                        }
                    }
                    self.board[below_i] = above;
                    self.board[above_i] = Color::Empty;
                    did_something = true;
                    proof {
                        assert(col_seq(self.board@, x as int) =~= c.update(y - 1, above).update(
                            y as int,
                            Color::Empty,
                        ));
                        assert(col_seq(self.board@, x as int) == grav_upto(colx, y as int));
                        assert forall|x2: int|
                            0 <= x2 < BOARD_WIDTH && x2 != x implies col_seq(self.board@, x2)
                            == col_seq(prev, x2) by {
                            assert(col_seq(self.board@, x2) =~= col_seq(prev, x2));
                        }
                    }
                } else {
                    proof {
                        assert(col_seq(self.board@, x as int) == grav_upto(colx, y as int));
                    }
                }
                x = x + 1;
            }
            y = y + 1;
        }
        proof {
            if !did_something {
                assert forall|x2: int, y2: int|
                    0 <= x2 < BOARD_WIDTH && 0 <= y2 < BOARD_HEIGHT - 1 && #[trigger] at_xy(
                        old(self).board@,
                        x2,
                        y2,
                    ) == Color::Empty implies at_xy(old(self).board@, x2, y2 + 1)
                    == Color::Empty by {
                    assert(at_xy(self.board@, x2, y2) == Color::Empty);
                }
            }
        }
        did_something
    }

    /// Empty every cell the flood marked, group cells and absorbed garbage
    /// alike: exactly `num` occupied cells leave the board.
    fn clear_group(&mut self, mark: &Vec<u8>, color: Color, num: u32)
        requires
            board_wf(old(self).board@),
            mark@.len() == SCAN_CELLS,
            color.spec_is_normal(),
            forall|i: int|
                0 <= i < SCAN_CELLS && #[trigger] mark@[i] == MARK_FOUND ==> old(self).board@[i]
                    == color,
            forall|i: int|
                0 <= i < SCAN_CELLS && #[trigger] mark@[i] == MARK_GARBAGE ==> old(self).board@[i]
                    == Color::Garbage,
            num == count_val(mark@, MARK_FOUND) + count_val(mark@, MARK_GARBAGE),
        ensures
            board_wf(final(self).board@),
            forall|i: int|
                0 <= i < BOARD_CELLS ==> #[trigger] final(self).board@[i] == (if i < SCAN_CELLS
                    && (mark@[i] == MARK_FOUND || mark@[i] == MARK_GARBAGE) {
                    Color::Empty
                } else {
                    old(self).board@[i]
                }),
            count_nonempty(final(self).board@) == count_nonempty(old(self).board@) - num,
            *final(self) == (Game { board: final(self).board, ..*old(self) }),
    {
        let mut i: usize = 0;
        while i < SCAN_CELLS
            invariant
                board_wf(old(self).board@),
                board_wf(self.board@),
                i <= SCAN_CELLS,
                mark@.len() == SCAN_CELLS,
                color.spec_is_normal(),
                forall|j: int|
                    0 <= j < SCAN_CELLS && mark@[j] == MARK_FOUND ==> old(self).board@[j] == color,
                forall|j: int|
                    0 <= j < SCAN_CELLS && mark@[j] == MARK_GARBAGE ==> old(self).board@[j]
                        == Color::Garbage,
                forall|j: int|
                    0 <= j < BOARD_CELLS ==> #[trigger] self.board@[j] == (if j < i && (mark@[j]
                        == MARK_FOUND || mark@[j] == MARK_GARBAGE) {
                        Color::Empty
                    } else {
                        old(self).board@[j]
                    }),
                count_nonempty(self.board@) == count_nonempty(old(self).board@) - (count_val(
                    mark@.take(i as int),
                    MARK_FOUND,
                ) + count_val(mark@.take(i as int), MARK_GARBAGE)),
                *self == (Game { board: self.board, ..*old(self) }),
            decreases SCAN_CELLS - i,
        {
            proof {
                assert(mark@.take(i + 1).drop_last() =~= mark@.take(i as int));
                assert(mark@.take(i + 1).last() == mark@[i as int]);
            }
            let m = mark[i];
            if m == MARK_FOUND || m == MARK_GARBAGE {
                proof {
                    lemma_count_nonempty_update(self.board@, i as int, Color::Empty);
                }
                self.board[i] = Color::Empty;
            }
            i = i + 1;
        }
        proof {
            assert(mark@.take(SCAN_CELLS as int) =~= mark@);
        }
    }

    /// One clear-detection scan over the rows below the reserved top row,
    /// left to right, bottom to top. Every unvisited normal-colored cell
    /// seeds a flood fill; groups of four or more clear, together with the
    /// garbage they touch, and are recorded in the chain accumulator, while
    /// smaller groups are memoized as unclearable for the rest of the scan
    /// and are never revisited. Cells only ever change from occupied to
    /// empty, and the accumulator's cleared total grows by exactly the
    /// number of cells emptied. Reports whether anything cleared, and then
    /// closes the accumulator's clear-cycle.
    #[verifier::rlimit(100)]
    #[verifier::spinoff_prover]
    pub fn check_chains(&mut self) -> (r: bool)
        requires
            old(self).wf(),
        ensures
            final(self).wf(),
            forall|i: int|
                0 <= i < BOARD_CELLS && final(self).board@[i] != old(self).board@[i] ==> i
                    < SCAN_CELLS && final(self).board@[i] == Color::Empty && old(self).board@[i]
                    != Color::Empty,
            final(self).chain.total_cleared - old(self).chain.total_cleared == count_nonempty(
                old(self).board@,
            ) - count_nonempty(final(self).board@),
            final(self).chain.leftover == old(self).chain.leftover,
            r ==> final(self).chain.num_chains == old(self).chain.num_chains + 1 && final(self).chain.total_cleared >= old(self).chain.total_cleared + 4,
            !r ==> final(self).chain == old(self).chain && final(self).board@ == old(self).board@,
            !r ==> forall|c: Coord|
                #![trigger old(self).board@[idx(c)]]
                in_scan_bounds(c) && old(self).board@[idx(c)].spec_is_normal() ==> exists|
                    c2: Coord,
                    c3: Coord,
                | small_region(old(self).board@, c, c2, c3),
            forall|c: Coord|
                #![trigger old(self).board@[idx(c)]]
                in_scan_bounds(c) && old(self).board@[idx(c)].spec_is_normal() && (exists|
                    c2: Coord,
                    c3: Coord,
                | small_region(old(self).board@, c, c2, c3)) ==> final(self).board@[idx(c)] == old(self).board@[idx(c)],
            forall|d: Coord|
                #![trigger final(self).board@[idx(d)]]
                in_scan_bounds(d) && old(self).board@[idx(d)] == Color::Garbage && final(self).board@[idx(d)] != old(self).board@[idx(d)] ==> exists|f: Coord|
                    in_scan_bounds(f) && adjacent(f, d) && final(self).board@[idx(f)] != old(self).board@[idx(f)] && old(self).board@[idx(f)].spec_is_normal(),
            forall|f: Coord, d: Coord|
                #![trigger adjacent(f, d)]
                in_scan_bounds(f) && in_scan_bounds(d) && adjacent(f, d) && old(self).board@[idx(
                    f,
                )].spec_is_normal() && final(self).board@[idx(f)] != old(self).board@[idx(f)]
                    && old(self).board@[idx(d)] == Color::Garbage ==> final(self).board@[idx(d)]
                    == Color::Empty,
            *final(self) == (Game {
                board: final(self).board,
                chain: final(self).chain,
                ..*old(self)
            }),
    {
        let mut unclearable: Vec<bool> = filled(SCAN_CELLS, false);
        let mut any_cleared = false;
        let mut y: usize = 0;
        while y < BOARD_HEIGHT - 1
            invariant
                old(self).wf(),
                y <= BOARD_HEIGHT - 1,
                unclearable@.len() == SCAN_CELLS,
                board_wf(self.board@),
                self.chain.wf(),
                self.chain.leftover == old(self).chain.leftover,
                self.chain.num_chains == old(self).chain.num_chains,
                self.chain.total_cleared >= old(self).chain.total_cleared,
                self.chain.total_cleared - old(self).chain.total_cleared == count_nonempty(
                    old(self).board@,
                ) - count_nonempty(self.board@),
                any_cleared ==> self.chain.total_cleared >= old(self).chain.total_cleared + 4,
                !any_cleared ==> self.board@ == old(self).board@ && self.chain == old(self).chain,
                forall|i: int|
                    0 <= i < BOARD_CELLS && self.board@[i] != old(self).board@[i] ==> i
                        < SCAN_CELLS && self.board@[i] == Color::Empty && old(self).board@[i]
                        != Color::Empty,
                forall|c: Coord|
                    #![trigger old(self).board@[idx(c)]]
                    in_scan_bounds(c) && old(self).board@[idx(c)].spec_is_normal() && (exists|
                        c2: Coord,
                        c3: Coord,
                    | small_region(old(self).board@, c, c2, c3)) ==> self.board@[idx(c)] == old(self).board@[idx(c)],
                forall|d: Coord|
                    #![trigger self.board@[idx(d)]]
                    in_scan_bounds(d) && old(self).board@[idx(d)] == Color::Garbage
                        && self.board@[idx(d)] != old(self).board@[idx(d)] ==> exists|f: Coord|
                        in_scan_bounds(f) && adjacent(f, d) && self.board@[idx(f)] != old(self).board@[idx(f)] && old(self).board@[idx(f)].spec_is_normal(),
                forall|f: Coord, d: Coord|
                    #![trigger adjacent(f, d)]
                    in_scan_bounds(f) && in_scan_bounds(d) && adjacent(f, d) && old(self).board@[idx(f)].spec_is_normal() && self.board@[idx(f)] != old(self).board@[idx(
                        f,
                    )] && old(self).board@[idx(d)] == Color::Garbage ==> self.board@[idx(d)]
                        == Color::Empty,
                forall|i: int|
                    0 <= i < SCAN_CELLS && #[trigger] unclearable@[i] ==> self.board@[i].spec_is_normal(),
                forall|c: Coord, d: Coord|
                    #![trigger unclearable@[idx(c)], adjacent(c, d)]
                    in_scan_bounds(c) && in_scan_bounds(d) && adjacent(c, d) && unclearable@[idx(c)]
                        && self.board@[idx(d)] == self.board@[idx(c)] ==> unclearable@[idx(d)],
                !any_cleared ==> forall|c: Coord|
                    in_scan_bounds(c) && #[trigger] unclearable@[idx(c)] ==> exists|
                        c2: Coord,
                        c3: Coord,
                    | small_region(self.board@, c, c2, c3),
                !any_cleared ==> forall|c: Coord|
                    #![trigger unclearable@[idx(c)]]
                    in_scan_bounds(c) && c.y < y && self.board@[idx(c)].spec_is_normal()
                        ==> unclearable@[idx(c)],
                *self == (Game { board: self.board, chain: self.chain, ..*old(self) }),
            decreases BOARD_HEIGHT - 1 - y,
        {
            let mut x: usize = 0;
            while x < BOARD_WIDTH
                invariant
                    old(self).wf(),
                    y < BOARD_HEIGHT - 1,
                    x <= BOARD_WIDTH,
                    unclearable@.len() == SCAN_CELLS,
                    board_wf(self.board@),
                    self.chain.wf(),
                    self.chain.leftover == old(self).chain.leftover,
                    self.chain.num_chains == old(self).chain.num_chains,
                    self.chain.total_cleared >= old(self).chain.total_cleared,
                    self.chain.total_cleared - old(self).chain.total_cleared == count_nonempty(
                        old(self).board@,
                    ) - count_nonempty(self.board@),
                    any_cleared ==> self.chain.total_cleared >= old(self).chain.total_cleared + 4,
                    !any_cleared ==> self.board@ == old(self).board@ && self.chain == old(self).chain,
                    forall|i: int|
                        0 <= i < BOARD_CELLS && self.board@[i] != old(self).board@[i] ==> i
                            < SCAN_CELLS && self.board@[i] == Color::Empty && old(self).board@[i]
                            != Color::Empty,
                    forall|c: Coord|
                        #![trigger old(self).board@[idx(c)]]
                        in_scan_bounds(c) && old(self).board@[idx(c)].spec_is_normal() && (exists|
                            c2: Coord,
                            c3: Coord,
                    | small_region(old(self).board@, c, c2, c3)) ==> self.board@[idx(c)] == old(self).board@[idx(c)],
                    forall|d: Coord|
                        #![trigger self.board@[idx(d)]]
                        in_scan_bounds(d) && old(self).board@[idx(d)] == Color::Garbage
                        && self.board@[idx(d)] != old(self).board@[idx(d)] ==> exists|f: Coord|
                        in_scan_bounds(f) && adjacent(f, d) && self.board@[idx(f)] != old(self).board@[idx(f)] && old(self).board@[idx(f)].spec_is_normal(),
                    forall|f: Coord, d: Coord|
                        #![trigger adjacent(f, d)]
                        in_scan_bounds(f) && in_scan_bounds(d) && adjacent(f, d) && old(self).board@[idx(f)].spec_is_normal() && self.board@[idx(f)] != old(self).board@[idx(
                        f,
                    )] && old(self).board@[idx(d)] == Color::Garbage ==> self.board@[idx(d)]
                        == Color::Empty,
                    forall|i: int|
                        0 <= i < SCAN_CELLS && #[trigger] unclearable@[i] ==> self.board@[i].spec_is_normal(),
                    forall|c: Coord, d: Coord|
                        #![trigger unclearable@[idx(c)], adjacent(c, d)]
                        in_scan_bounds(c) && in_scan_bounds(d) && adjacent(c, d) && unclearable@[idx(c)]
                            && self.board@[idx(d)] == self.board@[idx(c)] ==> unclearable@[idx(d)],
                    !any_cleared ==> forall|c: Coord|
                        in_scan_bounds(c) && #[trigger] unclearable@[idx(c)] ==> exists|
                            c2: Coord,
                            c3: Coord,
                        | small_region(self.board@, c, c2, c3),
                    !any_cleared ==> forall|c: Coord|
                        #![trigger unclearable@[idx(c)]]
                        in_scan_bounds(c) && (c.y < y || (c.y == y && c.x < x))
                            && self.board@[idx(c)].spec_is_normal() ==> unclearable@[idx(c)],
                    *self == (Game { board: self.board, chain: self.chain, ..*old(self) }),
                decreases BOARD_WIDTH - x,
            {
                let ci = y * BOARD_WIDTH + x;
                if !unclearable[ci] {
                    let color = self.board[ci];
                    if color.is_normal() {
                        let (mark, fcount, gcount) = find_group(&self.board, &unclearable, x, y);
                        if fcount < 4 {
                            // Too small to clear: memoize every cell of the
                            // group as unclearable for the rest of the scan.
                            let ghost u0 = unclearable@;
                            let mut i: usize = 0;
                            while i < SCAN_CELLS
                                invariant
                                    i <= SCAN_CELLS,
                                    unclearable@.len() == SCAN_CELLS,
                                    mark@.len() == SCAN_CELLS,
                                    forall|j: int|
                                        0 <= j < SCAN_CELLS ==> #[trigger] unclearable@[j] == (
                                        u0[j] || (j < i && mark@[j] == MARK_FOUND)),
                                decreases SCAN_CELLS - i,
                            {
                                if mark[i] == MARK_FOUND {
                                    unclearable[i] = true;
                                }
                                i = i + 1;
                            }
                            proof {
                                let b = self.board@;
                                assert forall|i2: int|
                                    0 <= i2 < SCAN_CELLS && #[trigger] unclearable@[i2] implies b[i2].spec_is_normal() by {
                                    if !u0[i2] {
                                        assert(mark@[i2] == MARK_FOUND);
                                    }
                                }
                                assert forall|c: Coord, d: Coord|
                                    in_scan_bounds(c) && in_scan_bounds(d) && #[trigger] adjacent(
                                    c,
                                    d,
                                ) && #[trigger] unclearable@[idx(c)] && b[idx(d)] == b[idx(
                                    c,
                                )] implies unclearable@[idx(d)] by {
                                    lemma_idx_in_range(c);
                                    lemma_idx_in_range(d);
                                    if u0[idx(c)] {
                                        assert(u0[idx(d)]);
                                    } else {
                                        assert(mark@[idx(c)] == MARK_FOUND);
                                        assert(b[idx(c)] == color);
                                        if u0[idx(d)] {
                                            assert(adjacent(d, c));
                                            assert(u0[idx(c)]);
                                            assert(false);
                                        }
                                        assert(mark@[idx(d)] == MARK_FOUND);
                                    }
                                }
                                if !any_cleared {
                                    lemma_group_is_small_region(b, u0, mark@, color);
                                    assert forall|c: Coord|
                                        in_scan_bounds(c) && #[trigger] unclearable@[idx(
                                        c,
                                    )] implies exists|c2: Coord, c3: Coord|
                                        small_region(b, c, c2, c3) by {
                                        lemma_idx_in_range(c);
                                        if !u0[idx(c)] {
                                            assert(mark@[idx(c)] == MARK_FOUND);
                                        }
                                    }
                                }
                                assert(unclearable@[(y * BOARD_WIDTH + x) as int]);
                            }
                        } else {
                            any_cleared = true;
                            proof {
                                lemma_count_nonempty_bound(self.board@);
                                lemma_count_nonempty_bound(old(self).board@);
                            }
                            let group_num = fcount + gcount;
                            let ghost b0 = self.board@;
                            self.clear_group(&mark, color, group_num);
                            self.chain.record_group(color, group_num);
                            proof {
                                assert forall|i2: int|
                                    0 <= i2 < SCAN_CELLS && #[trigger] unclearable@[i2] implies self.board@[i2].spec_is_normal() by {
                                    assert(mark@[i2] != MARK_FOUND && mark@[i2] != MARK_GARBAGE);
                                    assert(self.board@[i2] == b0[i2]);
                                }
                                assert forall|c: Coord, d: Coord|
                                    in_scan_bounds(c) && in_scan_bounds(d) && #[trigger] adjacent(
                                    c,
                                    d,
                                ) && #[trigger] unclearable@[idx(c)] && self.board@[idx(d)]
                                    == self.board@[idx(c)] implies unclearable@[idx(d)] by {
                                    lemma_idx_in_range(c);
                                    lemma_idx_in_range(d);
                                    assert(mark@[idx(c)] != MARK_FOUND && mark@[idx(c)]
                                        != MARK_GARBAGE);
                                    assert(self.board@[idx(c)] == b0[idx(c)]);
                                    if mark@[idx(d)] == MARK_FOUND || mark@[idx(d)]
                                        == MARK_GARBAGE {
                                        assert(self.board@[idx(d)] == Color::Empty);
                                        assert(b0[idx(c)].spec_is_normal());
                                        assert(false);
                                    }
                                    assert(self.board@[idx(d)] == b0[idx(d)]);
                                }
                                assert forall|c: Coord|
                                    in_scan_bounds(c) && (#[trigger] old(self).board@[idx(
                                    c,
                                )]).spec_is_normal() && (exists|c2: Coord, c3: Coord|
                                    small_region(
                                        old(self).board@,
                                        c,
                                        c2,
                                        c3,
                                    )) implies self.board@[idx(c)] == old(self).board@[idx(
                                    c,
                                )] by {
                                    lemma_idx_in_range(c);
                                    assert(b0[idx(c)] == old(self).board@[idx(c)]);
                                    if mark@[idx(c)] == MARK_FOUND || mark@[idx(c)]
                                        == MARK_GARBAGE {
                                        if mark@[idx(c)] == MARK_GARBAGE {
                                            assert(b0[idx(c)] == Color::Garbage);
                                            assert(false);
                                        }
                                        let (c2, c3) = choose|c2: Coord, c3: Coord|
                                            small_region(old(self).board@, c, c2, c3);
                                        lemma_witnessed_survives(
                                            old(self).board@,
                                            b0,
                                            mark@,
                                            color,
                                            c,
                                            c2,
                                            c3,
                                        );
                                        assert(false);
                                    }
                                    assert(self.board@[idx(c)] == b0[idx(c)]);
                                }
                                assert forall|d: Coord|
                                    in_scan_bounds(d) && old(self).board@[idx(d)] == Color::Garbage
                                        && #[trigger] self.board@[idx(d)] != old(self).board@[idx(
                                        d,
                                    )] implies exists|f: Coord|
                                    in_scan_bounds(f) && adjacent(f, d) && self.board@[idx(f)]
                                        != old(self).board@[idx(f)] && old(self).board@[idx(
                                        f,
                                    )].spec_is_normal() by {
                                    lemma_idx_in_range(d);
                                    if b0[idx(d)] != old(self).board@[idx(d)] {
                                        let f = choose|f: Coord|
                                            in_scan_bounds(f) && adjacent(f, d) && b0[idx(f)]
                                                != old(self).board@[idx(f)] && old(self).board@[idx(
                                                f,
                                            )].spec_is_normal();
                                        lemma_idx_in_range(f);
                                        assert(b0[idx(f)] == Color::Empty);
                                        assert(mark@[idx(f)] != MARK_FOUND && mark@[idx(f)]
                                            != MARK_GARBAGE);
                                        assert(self.board@[idx(f)] == b0[idx(f)]);
                                    } else {
                                        assert(b0[idx(d)] == Color::Garbage);
                                        assert(mark@[idx(d)] == MARK_GARBAGE || mark@[idx(d)]
                                            == MARK_FOUND);
                                        assert(mark@[idx(d)] == MARK_GARBAGE);
                                        let f = choose|f: Coord|
                                            in_scan_bounds(f) && adjacent(f, d) && mark@[idx(f)]
                                                == MARK_FOUND;
                                        lemma_idx_in_range(f);
                                        assert(self.board@[idx(f)] == Color::Empty);
                                        assert(b0[idx(f)] == color);
                                        assert(b0[idx(f)] == old(self).board@[idx(f)]);
                                    }
                                }
                                assert forall|f: Coord, d: Coord|
                                    in_scan_bounds(f) && in_scan_bounds(d) && #[trigger] adjacent(
                                    f,
                                    d,
                                ) && old(self).board@[idx(f)].spec_is_normal() && self.board@[idx(
                                    f,
                                )] != old(self).board@[idx(f)] && old(self).board@[idx(d)]
                                    == Color::Garbage implies self.board@[idx(d)]
                                    == Color::Empty by {
                                    lemma_idx_in_range(f);
                                    lemma_idx_in_range(d);
                                    if b0[idx(f)] != old(self).board@[idx(f)] {
                                        assert(b0[idx(d)] == Color::Empty);
                                        assert(mark@[idx(d)] != MARK_FOUND && mark@[idx(d)]
                                            != MARK_GARBAGE);
                                        assert(self.board@[idx(d)] == b0[idx(d)]);
                                    } else {
                                        assert(mark@[idx(f)] == MARK_FOUND);
                                        if b0[idx(d)] != old(self).board@[idx(d)] {
                                            assert(b0[idx(d)] == Color::Empty);
                                            assert(mark@[idx(d)] != MARK_FOUND && mark@[idx(d)]
                                                != MARK_GARBAGE);
                                            assert(self.board@[idx(d)] == b0[idx(d)]);
                                        } else {
                                            assert(b0[idx(d)] == Color::Garbage);
                                            assert(!unclearable@[idx(d)]);
                                            assert(mark@[idx(d)] == MARK_GARBAGE);
                                            assert(self.board@[idx(d)] == Color::Empty);
                                        }
                                    }
                                }
                            }
                        }
                    }
                }
                proof {
                    if !any_cleared {
                        assert forall|c: Coord|
                            #![trigger unclearable@[idx(c)]]
                            in_scan_bounds(c) && (c.y < y || (c.y == y && c.x < x + 1))
                                && self.board@[idx(c)].spec_is_normal() implies unclearable@[idx(
                            c,
                        )] by {
                            if c.y == y && c.x == x {
                                assert(idx(c) == y * BOARD_WIDTH + x);
                            }
                        }
                    }
                }
                x = x + 1;
            }
            y = y + 1;
        }
        if any_cleared {
            self.chain.end_cycle();
        }
        proof {
            lemma_count_nonempty_bound(self.board@);
            if !any_cleared {
                assert forall|c: Coord|
                    #![trigger old(self).board@[idx(c)]]
                    in_scan_bounds(c) && old(self).board@[idx(c)].spec_is_normal() implies exists|
                    c2: Coord,
                    c3: Coord,
                | small_region(old(self).board@, c, c2, c3) by {
                    lemma_idx_in_range(c);
                    assert(self.board@ == old(self).board@);
                    assert(unclearable@[idx(c)]);
                }
            }
        }
        any_cleared
    }

    /// Convert whatever the chain accumulator is worth into garbage and
    /// net it against pending incoming garbage first: defense before
    /// offense. Only the surplus is queued for the opponent. Never
    /// short-circuits the tick.
    pub fn apply_score(&mut self) -> (r: bool)
        requires
            old(self).wf(),
        ensures
            final(self).wf(),
            !r,
            final(self).chain.total_cleared == 0,
            ({
                let produced: int = if old(self).chain.total_cleared == 0 {
                    0
                } else {
                    (old(self).chain.score_of() + old(self).chain.leftover) / (
                    POINTS_PER_GARBAGE as int)
                };
                let netted: int = if produced <= old(self).incoming_garbage {
                    produced
                } else {
                    old(self).incoming_garbage as int
                };
                let surplus: int = produced - netted;
                &&& final(self).incoming_garbage == old(self).incoming_garbage - netted
                &&& final(self).garbage_netted@ == old(self).garbage_netted@ + netted
                &&& final(self).outgoing_garbage == (if old(self).outgoing_garbage + surplus
                    <= u32::MAX {
                    old(self).outgoing_garbage + surplus
                } else {
                    u32::MAX as int
                })
            }),
            old(self).chain.total_cleared == 0 ==> final(self).chain == old(self).chain,
            old(self).chain.total_cleared > 0 ==> final(self).chain.is_reset() && final(self).chain.leftover == (old(self).chain.score_of() + old(self).chain.leftover) % (
            POINTS_PER_GARBAGE as int),
            *final(self) == (Game {
                chain: final(self).chain,
                incoming_garbage: final(self).incoming_garbage,
                outgoing_garbage: final(self).outgoing_garbage,
                garbage_netted: final(self).garbage_netted,
                ..*old(self)
            }),
    {
        proof {
            lemma_count_nonempty_bound(self.board@);
        }
        let mut garbage = self.chain.convert_to_garbage();
        let ghost netted: int = if garbage <= self.incoming_garbage {
            garbage as int
        } else {
            self.incoming_garbage as int
        };
        if self.incoming_garbage < garbage {
            garbage = garbage - self.incoming_garbage;
            self.incoming_garbage = 0;
        } else {
            self.incoming_garbage = self.incoming_garbage - garbage;
            garbage = 0;
        }
        // The outgoing counter saturates rather than wrap if an orchestrator
        // never drains it.
        if garbage <= u32::MAX - self.outgoing_garbage {
            self.outgoing_garbage = self.outgoing_garbage + garbage;
        } else {
            self.outgoing_garbage = u32::MAX;
        }
        proof {
            self.garbage_netted@ = (self.garbage_netted@ + netted) as nat;
        }
        false
    }

    /// Drop pending incoming garbage onto the board, one unit per visited
    /// column, walking the columns in a fixed interleaved order with a
    /// cursor that persists across calls. In each visited column the unit
    /// lands in the first empty cell below the garbage already stacked at
    /// the top; a column blocked by anything else is full for this call.
    /// Stops when nothing is pending or every column reported full.
    #[verifier::rlimit(100)]
    #[verifier::spinoff_prover]
    pub fn spawn_garbage(&mut self) -> (r: bool)
        requires
            old(self).wf(),
            old(self).chain.total_cleared == 0,
        ensures
            final(self).wf(),
            forall|i: int|
                0 <= i < BOARD_CELLS && final(self).board@[i] != old(self).board@[i] ==> old(self).board@[i] == Color::Empty && final(self).board@[i] == Color::Garbage,
            old(self).incoming_garbage - final(self).incoming_garbage == count_val(
                final(self).board@,
                Color::Garbage,
            ) - count_val(old(self).board@, Color::Garbage),
            final(self).garbage_placed@ == old(self).garbage_placed@ + (
            old(self).incoming_garbage - final(self).incoming_garbage),
            final(self).incoming_garbage <= old(self).incoming_garbage,
            r == (final(self).incoming_garbage != old(self).incoming_garbage),
            !r ==> final(self).board@ == old(self).board@,
            forall|x: int, yp: int, y2: int|
                0 <= x < BOARD_WIDTH && 0 <= yp < y2 < BOARD_HEIGHT && #[trigger] at_xy(
                    final(self).board@,
                    x,
                    yp,
                ) != at_xy(old(self).board@, x, yp) ==> #[trigger] at_xy(
                    final(self).board@,
                    x,
                    y2,
                ) == Color::Garbage,
            old(self).incoming_garbage > 0 && final(self).incoming_garbage == old(self).incoming_garbage ==> forall|x: int|
                0 <= x < BOARD_WIDTH ==> !column_can_take(old(self).board@, x),
            *final(self) == (Game {
                board: final(self).board,
                incoming_garbage: final(self).incoming_garbage,
                garbage_placed: final(self).garbage_placed,
                garbage_column_index: final(self).garbage_column_index,
                ..*old(self)
            }),
    {
        let mut did_something = false;
        let mut full_columns: usize = 0;
        while self.incoming_garbage > 0 && full_columns < BOARD_WIDTH
            invariant
                old(self).wf(),
                old(self).chain.total_cleared == 0,
                board_wf(self.board@),
                full_columns <= BOARD_WIDTH,
                self.garbage_column_index < BOARD_WIDTH,
                forall|i: int|
                    0 <= i < BOARD_CELLS && self.board@[i] != old(self).board@[i] ==> old(self).board@[i] == Color::Empty && self.board@[i] == Color::Garbage,
                old(self).incoming_garbage - self.incoming_garbage == count_val(
                    self.board@,
                    Color::Garbage,
                ) - count_val(old(self).board@, Color::Garbage),
                self.incoming_garbage <= old(self).incoming_garbage,
                self.garbage_placed@ == old(self).garbage_placed@ + (
                old(self).incoming_garbage - self.incoming_garbage),
                did_something == (self.incoming_garbage != old(self).incoming_garbage),
                !did_something ==> self.board@ == old(self).board@,
                !did_something ==> full_columns <= BOARD_WIDTH && cursor_offset(
                    old(self).garbage_column_index as int,
                    self.garbage_column_index as int,
                ) == (full_columns as int) % (BOARD_WIDTH as int),
                !did_something ==> forall|j: int|
                    0 <= j < BOARD_WIDTH && cursor_offset(
                        old(self).garbage_column_index as int,
                        j,
                    ) < full_columns ==> !column_can_take(
                        old(self).board@,
                        #[trigger] garbage_column_spec(j),
                    ),
                forall|x2: int, yp: int, y2: int|
                    0 <= x2 < BOARD_WIDTH && 0 <= yp < y2 < BOARD_HEIGHT && #[trigger] at_xy(
                        self.board@,
                        x2,
                        yp,
                    ) != at_xy(old(self).board@, x2, yp) ==> #[trigger] at_xy(
                        self.board@,
                        x2,
                        y2,
                    ) == Color::Garbage,
                self.garbage_added@ == self.incoming_garbage + self.garbage_placed@
                    + self.garbage_netted@,
                *self == (Game {
                    board: self.board,
                    incoming_garbage: self.incoming_garbage,
                    garbage_placed: self.garbage_placed,
                    garbage_column_index: self.garbage_column_index,
                    ..*old(self)
                }),
            decreases self.incoming_garbage, BOARD_WIDTH - full_columns,
        {
            let ghost cursor_at = self.garbage_column_index;
            let x = garbage_column(self.garbage_column_index);
            // Walk down past the garbage already stacked at the top.
            let mut y = BOARD_HEIGHT;
            while y > 0 && self.board[(y - 1) * BOARD_WIDTH + x] == Color::Garbage
                invariant
                    board_wf(self.board@),
                    y <= BOARD_HEIGHT,
                    x < BOARD_WIDTH,
                    forall|y2: int|
                        y <= y2 < BOARD_HEIGHT ==> #[trigger] at_xy(self.board@, x as int, y2)
                            == Color::Garbage,
                decreases y,
            {
                y = y - 1;
            }
            if y == 0 {
                // A column of garbage all the way down takes no more units:
                // it counts as full, which also bounds this loop.
                proof {
                    if !did_something {
                        lemma_column_blocked(self.board@, x as int, 0);
                    }
                }
                full_columns = full_columns + 1;
            } else {
                let i = (y - 1) * BOARD_WIDTH + x;
                if self.board[i] == Color::Empty {
                    let ghost prev = self.board@;
                    proof {
                        lemma_count_val_update(self.board@, i as int, Color::Garbage, Color::Garbage);
                        lemma_count_nonempty_update(self.board@, i as int, Color::Garbage);
                        self.garbage_placed@ = (self.garbage_placed@ + 1) as nat;
                    }
                    self.board[i] = Color::Garbage;
                    self.incoming_garbage = self.incoming_garbage - 1;
                    did_something = true;
                    proof {
                        assert forall|x2: int, yp: int, y2: int|
                            0 <= x2 < BOARD_WIDTH && 0 <= yp < y2 < BOARD_HEIGHT
                                && #[trigger] at_xy(self.board@, x2, yp) != at_xy(
                                old(self).board@,
                                x2,
                                yp,
                            ) implies #[trigger] at_xy(self.board@, x2, y2)
                            == Color::Garbage by {
                            if x2 == x && y2 == y - 1 {
                            } else {
                                assert(y2 * BOARD_WIDTH + x2 != i);
                                assert(at_xy(self.board@, x2, y2) == at_xy(prev, x2, y2));
                                if x2 == x && yp == y - 1 {
                                    assert(y2 >= y);
                                    assert(at_xy(prev, x2, y2) == Color::Garbage);
                                } else {
                                    assert(yp * BOARD_WIDTH + x2 != i);
                                    assert(at_xy(self.board@, x2, yp) == at_xy(prev, x2, yp));
                                }
                            }
                        }
                    }
                } else {
                    proof {
                        if !did_something {
                            lemma_column_blocked(self.board@, x as int, y as int);
                        }
                    }
                    full_columns = full_columns + 1;
                }
            }
            self.garbage_column_index = (self.garbage_column_index + 1) % BOARD_WIDTH;
        }
        proof {
            lemma_count_nonempty_bound(self.board@);
            if old(self).incoming_garbage > 0 && self.incoming_garbage == old(self).incoming_garbage {
                assert(full_columns >= BOARD_WIDTH);
                let start = old(self).garbage_column_index as int;
                assert forall|x: int| 0 <= x < BOARD_WIDTH implies !column_can_take(
                    old(self).board@,
                    x,
                ) by {
                    let j: int = if x == 0 {
                        0
                    } else if x == 3 {
                        1
                    } else if x == 2 {
                        2
                    } else if x == 5 {
                        3
                    } else if x == 1 {
                        4
                    } else {
                        5
                    };
                    assert(garbage_column_spec(j) == x);
                    assert(0 <= cursor_offset(start, j) < BOARD_WIDTH);
                    assert(!column_can_take(old(self).board@, garbage_column_spec(j)));
                }
            }
        }
        did_something
    }

    /// Hand control to a fresh piece at the spawn cell, its wheel in the
    /// reserved top row, and draw the colors of the piece after it. A
    /// blocked spawn cell ends the game instead.
    pub fn spawn_puyo(&mut self) -> (r: bool)
        requires
            old(self).wf(),
            old(self).chain.total_cleared == 0,
        ensures
            final(self).wf(),
            r,
            old(self).board@[idx(spawn_pos().pivot)] != Color::Empty ==> *final(self) == (Game {
                is_over: true,
                ..*old(self)
            }),
            old(self).board@[idx(spawn_pos().pivot)] == Color::Empty ==> {
                let pos = spawn_pos();
                &&& final(self).board@ == old(self).board@.update(
                    idx(pos.pivot),
                    old(self).next.pivot,
                ).update(idx(pos.wheel), old(self).next.wheel)
                &&& final(self).current == Some(pos)
                &&& final(self).next.pivot.spec_is_normal() && final(self).next.wheel.spec_is_normal()
                &&& final(self).next.pivot != final(self).excluded_color && final(self).next.wheel
                    != final(self).excluded_color
                &&& *final(self) == (Game {
                    board: final(self).board,
                    current: final(self).current,
                    next: final(self).next,
                    ..*old(self)
                })
            },
    {
        let spawn_i = (SPAWN_Y as usize) * BOARD_WIDTH + (SPAWN_X as usize);
        if self.board[spawn_i] != Color::Empty {
            self.is_over = true;
            return true;
        }
        let colors = self.next;
        self.next = Puyo::<Color>::from_excluded(self.excluded_color);
        let pivot = Coord { x: SPAWN_X, y: SPAWN_Y };
        let pos = Puyo::<Coord>::new(pivot, pivot.apply_motion(Direction::Up));
        self.swap_puyo(&pos, colors);
        self.current = Some(pos);
        proof {
            lemma_count_nonempty_bound(self.board@);
        }
        true
    }

    /// Consume the buffered rotation, if any, and turn the piece: a double
    /// press flips a vertical piece half way round and otherwise degrades
    /// to a single quarter turn. A blocked wheel first tries a floor kick
    /// (vertical outcome, whole piece up) or a wall kick (horizontal
    /// outcome, whole piece away from the wheel's side); a kick that would
    /// land on an occupied cell or leave the grid denies the rotation and
    /// restores the piece exactly.
    pub fn check_rotation(&mut self) -> (r: bool)
        requires
            old(self).wf(),
        ensures
            final(self).wf(),
            old(self).rotate == Rotation::Zero ==> !r && *final(self) == *old(self),
            old(self).rotate != Rotation::Zero && old(self).current is None ==> !r && *final(self)
                == *old(self),
            old(self).rotate != Rotation::Zero ==> (old(self).current matches Some(p) ==> {
                let res = rotation_result(old(self).board@, p, old(self).rotate);
                &&& r == (res is Some)
                &&& r ==> final(self).board@ == place(
                    lift(old(self).board@, p),
                    res->Some_0,
                    colors_of(old(self).board@, p),
                ) && final(self).current == res
                &&& !r ==> final(self).board@ == old(self).board@ && final(self).current == old(self).current
                &&& *final(self) == (Game {
                    rotate: Rotation::Zero,
                    board: final(self).board,
                    current: final(self).current,
                    ..*old(self)
                })
            }),
    {
        if let Rotation::Zero = self.rotate {
            return false;
        }
        let puyo_pos = match &self.current {
            Some(current) => *current,
            None => { return false },
        };
        proof {
            lemma_idx_distinct(puyo_pos.pivot, puyo_pos.wheel);
            lemma_idx_in_range(puyo_pos.pivot);
            lemma_idx_in_range(puyo_pos.wheel);
        }
        let puyo_colors = self.swap_puyo(&puyo_pos, Puyo::<Color>::empty());
        let mut newpos = puyo_pos;
        let is_double = matches!(self.rotate, Rotation::Double);
        if is_double && newpos.is_vertical() {
            newpos.flip();
        } else {
            newpos.rotate();
        }
        let mut valid = true;
        if self.is_empty(newpos.wheel()) {
            // Free rotation: the wheel's destination is open.
        } else if newpos.is_vertical() {
            // Floor kick: push the whole piece up, if that leaves it on
            // free cells.
            newpos.move_(Direction::Up);
            if !(self.is_empty(newpos.pivot()) && self.is_empty(newpos.wheel())) {
                valid = false;
                newpos = puyo_pos;
            }
        } else {
            // Wall kick: step away from the wheel's side.
            let kick = match newpos.rotation() {
                Direction::Left => Direction::Right,
                _ => Direction::Left,
            };
            newpos.move_(kick);
            if !self.is_empty(newpos.pivot()) {
                valid = false;
                newpos = puyo_pos;
            }
        }
        self.rotate = Rotation::Zero;
        self.swap_puyo(&newpos, puyo_colors);
        self.current = Some(newpos);
        proof {
            let b = old(self).board@;
            let p = puyo_pos;
            assert(puyo_colors == colors_of(b, p));
            if valid {
                lemma_move_preserves_count(b, p, newpos);
            } else {
                lemma_restore(b, p);
            }
        }
        valid
    }

    /// A controlled piece consumes the tick; on the full-cycle tick it is
    /// moved one step down, and a blocked descent locks it in place and
    /// releases control.
    pub fn check_drop(&mut self, full: bool) -> (r: bool)
        requires
            old(self).wf(),
        ensures
            final(self).wf(),
            old(self).current is None ==> !r && *final(self) == *old(self),
            old(self).current is Some && !full ==> r && *final(self) == *old(self),
            full ==> (old(self).current matches Some(p) ==> {
                let q = moved_piece(p, Direction::Down);
                let lifted = lift(old(self).board@, p);
                &&& r == pos_free(lifted, q)
                &&& r ==> final(self).board@ == place(lifted, q, colors_of(old(self).board@, p))
                    && final(self).current == Some(q)
                &&& !r ==> final(self).board@ == old(self).board@ && final(self).current is None
                &&& *final(self) == (Game {
                    board: final(self).board,
                    current: final(self).current,
                    ..*old(self)
                })
            }),
    {
        let puyo_pos = match &self.current {
            Some(current) => *current,
            None => { return false },
        };
        if !full {
            return true;
        }
        proof {
            lemma_idx_distinct(puyo_pos.pivot, puyo_pos.wheel);
            lemma_idx_in_range(puyo_pos.pivot);
            lemma_idx_in_range(puyo_pos.wheel);
        }
        let puyo_colors = self.swap_puyo(&puyo_pos, Puyo::<Color>::empty());
        let mut moved = puyo_pos;
        moved.move_(Direction::Down);
        let valid = self.check_new_pos(moved, puyo_colors);
        proof {
            let b = old(self).board@;
            let p = puyo_pos;
            let q = moved_piece(p, Direction::Down);
            assert(puyo_colors == colors_of(b, p));
            if valid {
                lemma_move_preserves_count(b, p, q);
            } else {
                lemma_restore(b, p);
            }
        }
        if !valid {
            // The piece locked in place: it is no longer under control.
            self.current = None;
        }
        valid
    }
}

} // verus!
