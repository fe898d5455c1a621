use puyo_game::color::Color;
use puyo_game::game::Game;
use puyo_game::geometry::{Coord, Direction, Rotation};
use puyo_game::grid::{BOARD_CELLS, BOARD_HEIGHT, BOARD_WIDTH};
use puyo_game::puyo::Puyo;
use puyo_game::render::RenderCommand;

fn cell(x: usize, y: usize) -> usize {
    y * BOARD_WIDTH + x
}

/// A game with no piece, no intents, and an empty board, ready to be set
/// up cell by cell.
fn blank_game() -> Game {
    let mut g = Game::new();
    g.current = None;
    g.motion = Direction::Still;
    g.rotate = Rotation::Zero;
    g
}

#[test]
fn motion_merge_down_then_up_cancels() {
    let mut g = blank_game();
    g.move_(Direction::Down);
    assert_eq!(g.motion, Direction::Down);
    g.move_(Direction::Up);
    assert_eq!(g.motion, Direction::Still);
}

#[test]
fn motion_merge_left_then_right_cancels() {
    let mut g = blank_game();
    g.move_(Direction::Left);
    g.move_(Direction::Right);
    assert_eq!(g.motion, Direction::Still);
}

#[test]
fn motion_merge_right_into_empty_buffer() {
    let mut g = blank_game();
    g.move_(Direction::Right);
    assert_eq!(g.motion, Direction::Right);
}

#[test]
fn motion_merge_down_yields_to_left() {
    let mut g = blank_game();
    g.move_(Direction::Down);
    g.move_(Direction::Left);
    assert_eq!(g.motion, Direction::Left);
    g.move_(Direction::Down);
    assert_eq!(g.motion, Direction::Left);
}

#[test]
fn gravity_settles_to_fixed_point() {
    let mut g = blank_game();
    g.board[cell(2, 7)] = Color::Red;
    g.board[cell(2, 4)] = Color::Blue;
    g.board[cell(5, 12)] = Color::Garbage;
    let occupied = 3;
    let mut passes = 0;
    while g.check_gravity() {
        passes += 1;
        assert!(passes <= BOARD_HEIGHT);
    }
    // No empty cell has an occupied cell directly above it.
    for x in 0..BOARD_WIDTH {
        for y in 0..BOARD_HEIGHT - 1 {
            if g.board[cell(x, y)] == Color::Empty {
                assert_eq!(g.board[cell(x, y + 1)], Color::Empty);
            }
        }
    }
    // Cells were moved, never created or destroyed.
    let count = g.board.iter().filter(|c| **c != Color::Empty).count();
    assert_eq!(count, occupied);
    // The lower cell lands first: blue below red.
    assert_eq!(g.board[cell(2, 0)], Color::Blue);
    assert_eq!(g.board[cell(2, 1)], Color::Red);
    assert_eq!(g.board[cell(5, 0)], Color::Garbage);
}

#[test]
fn small_groups_never_clear_and_scans_are_idempotent() {
    let mut g = blank_game();
    // A three-cell group: too small to clear.
    g.board[cell(0, 0)] = Color::Red;
    g.board[cell(1, 0)] = Color::Red;
    g.board[cell(0, 1)] = Color::Red;
    assert!(!g.check_chains());
    assert_eq!(g.chain.total_cleared, 0);
    assert_eq!(g.chain.num_chains, 0);
    assert_eq!(g.board[cell(0, 0)], Color::Red);
    // A second scan finds the same board and still clears nothing.
    assert!(!g.check_chains());
    assert_eq!(g.board[cell(1, 0)], Color::Red);
}

#[test]
fn four_group_clears_with_adjacent_garbage() {
    let mut g = blank_game();
    g.board[cell(0, 0)] = Color::Red;
    g.board[cell(1, 0)] = Color::Red;
    g.board[cell(0, 1)] = Color::Red;
    g.board[cell(1, 1)] = Color::Red;
    g.board[cell(2, 0)] = Color::Garbage;
    // An unrelated distant garbage cell stays.
    g.board[cell(5, 5)] = Color::Garbage;
    assert!(g.check_chains());
    assert_eq!(g.chain.total_cleared, 5);
    assert_eq!(g.chain.num_chains, 1);
    // The recorded group counts the absorbed garbage: five cells, bonus 2.
    assert_eq!(g.chain.group_bonus, 2);
    for (x, y) in [(0, 0), (1, 0), (0, 1), (1, 1), (2, 0)] {
        assert_eq!(g.board[cell(x, y)], Color::Empty);
    }
    assert_eq!(g.board[cell(5, 5)], Color::Garbage);
}

#[test]
fn two_groups_clear_in_one_scan() {
    let mut g = blank_game();
    for x in 0..4 {
        g.board[cell(x, 0)] = Color::Blue;
    }
    for y in 3..7 {
        g.board[cell(5, y)] = Color::Yellow;
    }
    assert!(g.check_chains());
    assert_eq!(g.chain.total_cleared, 8);
    // Two groups in one scan make one clear-cycle, not two.
    assert_eq!(g.chain.num_chains, 1);
    assert!(g.chain.seen_blue && g.chain.seen_yellow && !g.chain.seen_red);
}

#[test]
fn top_row_is_excluded_from_clearing() {
    let mut g = blank_game();
    // A vertical run whose fourth cell sits in the reserved top row.
    for y in 9..13 {
        g.board[cell(0, y)] = Color::Green;
    }
    assert!(!g.check_chains());
    assert_eq!(g.board[cell(0, 12)], Color::Green);
}

#[test]
fn end_to_end_square_clears_on_a_tick() {
    let mut g = blank_game();
    g.board[cell(0, 0)] = Color::Violet;
    g.board[cell(1, 0)] = Color::Violet;
    g.board[cell(0, 1)] = Color::Violet;
    g.board[cell(1, 1)] = Color::Violet;
    // The next tick is a slow one: gravity is settled, so the scan runs.
    g.tick_num = 3;
    g.tick();
    assert_eq!(g.chain.total_cleared, 4);
    assert_eq!(g.chain.group_bonus, 0);
    assert_eq!(g.chain.num_chains, 1);
    assert!(g.chain.seen_violet);
    for (x, y) in [(0, 0), (1, 0), (0, 1), (1, 1)] {
        assert_eq!(g.board[cell(x, y)], Color::Empty);
    }
}

#[test]
fn garbage_spawns_in_interleaved_columns() {
    let mut g = blank_game();
    g.add_garbage(3);
    assert_eq!(g.pending_garbage(), 3);
    assert!(g.spawn_garbage());
    assert_eq!(g.pending_garbage(), 0);
    // Units land in the first empty cell from the top, in columns 0, 3, 2.
    assert_eq!(g.board[cell(0, 12)], Color::Garbage);
    assert_eq!(g.board[cell(3, 12)], Color::Garbage);
    assert_eq!(g.board[cell(2, 12)], Color::Garbage);
    let count = g.board.iter().filter(|c| **c == Color::Garbage).count();
    assert_eq!(count, 3);
}

#[test]
fn garbage_is_conserved_across_ticks() {
    let mut g = blank_game();
    g.add_garbage(5);
    for _ in 0..40 {
        g.tick();
        let on_board = g.board.iter().filter(|c| **c == Color::Garbage).count() as u32;
        // Nothing cleared and nothing was netted, so every unit is still
        // pending or on the board.
        assert_eq!(g.pending_garbage() + on_board, 5);
    }
}

#[test]
fn score_nets_against_incoming_garbage_first() {
    let mut g = blank_game();
    // Two cycles, nine cells, one color: 18 garbage units produced.
    g.chain.record_group(Color::Green, 9);
    g.chain.end_cycle();
    g.chain.end_cycle();
    g.add_garbage(5);
    assert!(!g.apply_score());
    assert_eq!(g.pending_garbage(), 0);
    assert_eq!(g.outgoing_garbage, 13);
    let mut g2 = blank_game();
    g2.chain.record_group(Color::Green, 9);
    g2.chain.end_cycle();
    g2.chain.end_cycle();
    g2.add_garbage(30);
    assert!(!g2.apply_score());
    // Defense first: all production is swallowed, nothing is sent.
    assert_eq!(g2.pending_garbage(), 12);
    assert_eq!(g2.outgoing_garbage, 0);
}

#[test]
fn get_garbage_drains_the_outgoing_queue() {
    let mut g = blank_game();
    g.outgoing_garbage = 7;
    assert_eq!(g.get_garbage(), 7);
    assert_eq!(g.get_garbage(), 0);
}

#[test]
fn motion_moves_the_piece_and_consumes_the_intent() {
    let mut g = blank_game();
    g.board[cell(2, 0)] = Color::Red;
    g.board[cell(2, 1)] = Color::Blue;
    g.current = Some(Puyo::<Coord>::new(
        Coord { x: 2, y: 0 },
        Coord { x: 2, y: 1 },
    ));
    g.move_(Direction::Right);
    assert!(g.check_motion());
    assert_eq!(g.motion, Direction::Still);
    assert_eq!(g.board[cell(3, 0)], Color::Red);
    assert_eq!(g.board[cell(3, 1)], Color::Blue);
    assert_eq!(g.board[cell(2, 0)], Color::Empty);
}

#[test]
fn blocked_motion_restores_the_board() {
    let mut g = blank_game();
    g.board[cell(0, 0)] = Color::Red;
    g.board[cell(0, 1)] = Color::Blue;
    g.current = Some(Puyo::<Coord>::new(
        Coord { x: 0, y: 0 },
        Coord { x: 0, y: 1 },
    ));
    g.move_(Direction::Left);
    assert!(!g.check_motion());
    assert_eq!(g.board[cell(0, 0)], Color::Red);
    assert_eq!(g.board[cell(0, 1)], Color::Blue);
}

#[test]
fn blocked_drop_locks_the_piece() {
    let mut g = blank_game();
    g.board[cell(2, 0)] = Color::Red;
    g.board[cell(2, 1)] = Color::Blue;
    g.current = Some(Puyo::<Coord>::new(
        Coord { x: 2, y: 0 },
        Coord { x: 2, y: 1 },
    ));
    assert!(!g.check_drop(true));
    assert!(g.current.is_none());
    assert_eq!(g.board[cell(2, 0)], Color::Red);
    assert_eq!(g.board[cell(2, 1)], Color::Blue);
}

#[test]
fn free_rotation_swings_the_wheel() {
    let mut g = blank_game();
    g.board[cell(2, 5)] = Color::Red;
    g.board[cell(2, 6)] = Color::Blue;
    g.current = Some(Puyo::<Coord>::new(
        Coord { x: 2, y: 5 },
        Coord { x: 2, y: 6 },
    ));
    g.rotate();
    assert_eq!(g.rotate, Rotation::Single);
    assert!(g.check_rotation());
    assert_eq!(g.rotate, Rotation::Zero);
    // Wheel above swings to the right of the pivot.
    assert_eq!(g.board[cell(2, 5)], Color::Red);
    assert_eq!(g.board[cell(3, 5)], Color::Blue);
    assert_eq!(g.board[cell(2, 6)], Color::Empty);
}

#[test]
fn wall_kick_shifts_off_the_edge() {
    let mut g = blank_game();
    // Vertical piece against the left wall; rotating the wheel to the left
    // is blocked by the wall, so the piece kicks right.
    g.board[cell(0, 5)] = Color::Red;
    g.board[cell(0, 4)] = Color::Blue;
    g.current = Some(Puyo::<Coord>::new(
        Coord { x: 0, y: 5 },
        Coord { x: 0, y: 4 },
    ));
    g.rotate();
    assert!(g.check_rotation());
    // Wheel below swings left, blocked by the wall: both cells step right.
    assert_eq!(g.board[cell(1, 5)], Color::Red);
    assert_eq!(g.board[cell(0, 5)], Color::Blue);
}

#[test]
fn denied_rotation_restores_everything() {
    let mut g = blank_game();
    // Vertical piece against the left wall with the right side blocked.
    g.board[cell(0, 5)] = Color::Red;
    g.board[cell(0, 4)] = Color::Blue;
    g.board[cell(1, 5)] = Color::Garbage;
    let pos = Puyo::<Coord>::new(Coord { x: 0, y: 5 }, Coord { x: 0, y: 4 });
    g.current = Some(pos);
    g.rotate();
    assert!(!g.check_rotation());
    assert_eq!(g.rotate, Rotation::Zero);
    assert_eq!(g.board[cell(0, 5)], Color::Red);
    assert_eq!(g.board[cell(0, 4)], Color::Blue);
    assert_eq!(g.board[cell(1, 5)], Color::Garbage);
    assert_eq!(g.current, Some(pos));
}

#[test]
fn double_rotation_flips_a_vertical_piece() {
    let mut g = blank_game();
    g.board[cell(2, 6)] = Color::Red;
    g.board[cell(2, 7)] = Color::Blue;
    g.current = Some(Puyo::<Coord>::new(
        Coord { x: 2, y: 6 },
        Coord { x: 2, y: 7 },
    ));
    g.rotate();
    g.rotate();
    assert_eq!(g.rotate, Rotation::Double);
    assert!(g.check_rotation());
    // The wheel lands on the opposite vertical side.
    assert_eq!(g.board[cell(2, 6)], Color::Red);
    assert_eq!(g.board[cell(2, 5)], Color::Blue);
    assert_eq!(g.board[cell(2, 7)], Color::Empty);
}

#[test]
fn floor_kick_lifts_a_blocked_rotation() {
    let mut g = blank_game();
    // Horizontal piece resting on a floor of garbage: the wheel cannot
    // swing below, so the whole piece steps up.
    g.board[cell(2, 0)] = Color::Garbage;
    g.board[cell(3, 0)] = Color::Garbage;
    g.board[cell(2, 1)] = Color::Red;
    g.board[cell(3, 1)] = Color::Blue;
    g.current = Some(Puyo::<Coord>::new(
        Coord { x: 2, y: 1 },
        Coord { x: 3, y: 1 },
    ));
    g.rotate();
    assert!(g.check_rotation());
    assert_eq!(g.board[cell(2, 2)], Color::Red);
    assert_eq!(g.board[cell(2, 1)], Color::Blue);
}

#[test]
fn spawn_takes_the_next_piece_and_draws_another() {
    let mut g = blank_game();
    let (pivot_color, wheel_color) = g.next_puyo();
    assert!(g.spawn_puyo());
    assert!(!g.is_over());
    assert_eq!(g.board[cell(3, 11)], pivot_color);
    assert_eq!(g.board[cell(3, 12)], wheel_color);
    assert!(g.current.is_some());
    let (np, nw) = g.next_puyo();
    assert!(np.is_normal() && nw.is_normal());
}

#[test]
fn blocked_spawn_ends_the_game() {
    let mut g = blank_game();
    g.board[cell(3, 11)] = Color::Garbage;
    assert!(g.spawn_puyo());
    assert!(g.is_over());
    // Every further tick is a no-op.
    let before = g.tick_num;
    g.tick();
    assert_eq!(g.tick_num, before);
}

#[test]
fn render_replays_the_live_grid_over_the_snapshot() {
    let mut g = blank_game();
    g.board[cell(1, 0)] = Color::Red;
    g.board[cell(4, 9)] = Color::Garbage;
    let mut canvas = g.front_board.clone();
    let mut renderer = g.render();
    let mut row: usize = 0;
    let mut col: usize = 0;
    while let Some(cmd) = renderer.next() {
        match cmd {
            RenderCommand::Goto(c) => {
                col = c.x as usize;
                row = c.y as usize;
            }
            RenderCommand::Paint(color) => {
                canvas[row * BOARD_WIDTH + col] = color;
                col += 1;
            }
        }
    }
    assert_eq!(canvas, g.board);
}

#[test]
fn finish_render_acknowledges_the_grid() {
    let mut g = blank_game();
    g.board[cell(0, 0)] = Color::Yellow;
    g.finish_render();
    assert_eq!(g.front_board, g.board);
    // With both grids equal the diff is empty.
    let mut renderer = g.render();
    assert_eq!(renderer.next(), None);
}

#[test]
fn new_game_starts_clean() {
    let g = Game::new();
    assert!(!g.is_over());
    assert_eq!(g.pending_garbage(), 0);
    assert_eq!(g.board.len(), BOARD_CELLS);
    assert!(g.board.iter().all(|c| *c == Color::Empty));
    assert!(g.excluded_color.is_normal());
    assert!(g.front_board.iter().all(|c| *c == g.excluded_color));
    let (p, w) = g.next_puyo();
    assert!(p.is_normal() && p != g.excluded_color);
    assert!(w.is_normal() && w != g.excluded_color);
}

#[test]
fn is_empty_treats_out_of_bounds_as_occupied() {
    let g = blank_game();
    assert!(g.is_empty(&Coord { x: 0, y: 0 }));
    assert!(!g.is_empty(&Coord { x: -1, y: 0 }));
    assert!(!g.is_empty(&Coord { x: 0, y: -1 }));
    assert!(!g.is_empty(&Coord { x: 6, y: 0 }));
    assert!(!g.is_empty(&Coord { x: 0, y: 13 }));
}

#[test]
fn cascade_accumulates_across_cycles() {
    let mut g = blank_game();
    // A square of red clears; the blues above it fall together and form a
    // second group, making a two-cycle combo before conversion.
    g.board[cell(0, 0)] = Color::Red;
    g.board[cell(1, 0)] = Color::Red;
    g.board[cell(0, 1)] = Color::Red;
    g.board[cell(1, 1)] = Color::Red;
    g.board[cell(0, 2)] = Color::Blue;
    g.board[cell(0, 3)] = Color::Blue;
    g.board[cell(0, 4)] = Color::Blue;
    g.board[cell(1, 5)] = Color::Blue;
    assert!(g.check_chains());
    assert_eq!(g.chain.total_cleared, 4);
    assert_eq!(g.chain.num_chains, 1);
    while g.check_gravity() {}
    assert!(g.check_chains());
    assert_eq!(g.chain.total_cleared, 8);
    assert_eq!(g.chain.num_chains, 2);
    // Two cycles, two groups of four, two distinct colors:
    // 10 * 8 * clamp(8 + 3 + 0) = 880; 12 units, remainder 40.
    assert!(!g.apply_score());
    assert_eq!(g.outgoing_garbage, 12);
    assert_eq!(g.chain.leftover, 40);
}

#[test]
fn tick_applies_buffered_motion_first() {
    let mut g = blank_game();
    g.board[cell(2, 0)] = Color::Red;
    g.board[cell(2, 1)] = Color::Blue;
    g.current = Some(Puyo::<Coord>::new(
        Coord { x: 2, y: 0 },
        Coord { x: 2, y: 1 },
    ));
    g.tick_num = 1;
    g.move_(Direction::Left);
    g.tick();
    // The motion phase consumed the tick; the piece moved one column left.
    assert_eq!(g.board[cell(1, 0)], Color::Red);
    assert_eq!(g.board[cell(1, 1)], Color::Blue);
    assert_eq!(g.motion, Direction::Still);
    assert_eq!(g.tick_num, 2);
}

#[test]
fn controlled_piece_descends_once_per_full_cycle() {
    let mut g = blank_game();
    g.board[cell(2, 5)] = Color::Red;
    g.board[cell(2, 6)] = Color::Blue;
    g.current = Some(Puyo::<Coord>::new(
        Coord { x: 2, y: 5 },
        Coord { x: 2, y: 6 },
    ));
    // A mid-cycle tick leaves the piece where it is.
    g.tick_num = 10;
    g.tick();
    assert_eq!(g.board[cell(2, 5)], Color::Red);
    // The wrap-around tick drops it one row.
    g.tick_num = 50;
    g.tick();
    assert_eq!(g.board[cell(2, 4)], Color::Red);
    assert_eq!(g.board[cell(2, 5)], Color::Blue);
    assert_eq!(g.board[cell(2, 6)], Color::Empty);
}

#[test]
fn emitted_garbage_crosses_to_the_other_board() {
    let mut attacker = blank_game();
    let mut defender = blank_game();
    attacker.chain.record_group(Color::Green, 9);
    attacker.chain.end_cycle();
    attacker.chain.end_cycle();
    attacker.apply_score();
    let emitted = attacker.get_garbage();
    assert_eq!(emitted, 18);
    // Draining twice never duplicates garbage.
    assert_eq!(attacker.get_garbage(), 0);
    defender.add_garbage(emitted);
    assert_eq!(defender.pending_garbage(), 18);
    assert!(defender.spawn_garbage());
    let on_board = defender.board.iter().filter(|c| **c == Color::Garbage).count() as u32;
    assert_eq!(on_board + defender.pending_garbage(), 18);
}

#[test]
fn spawn_garbage_reports_a_full_board() {
    let mut g = blank_game();
    // Block the top of every column with a non-garbage cell.
    for x in 0..BOARD_WIDTH {
        g.board[cell(x, 12)] = Color::Red;
    }
    g.add_garbage(4);
    assert!(!g.spawn_garbage());
    // Nothing placed: every column was reported full.
    assert_eq!(g.pending_garbage(), 4);
    let count = g.board.iter().filter(|c| **c == Color::Garbage).count();
    assert_eq!(count, 0);
}

#[test]
fn garbage_stacks_downward_from_the_top() {
    let mut g = blank_game();
    g.add_garbage(7);
    assert!(g.spawn_garbage());
    assert_eq!(g.pending_garbage(), 0);
    // Seven units: one at the top of every column, and the cursor wraps to
    // put the seventh directly below the first in its column.
    for x in 0..BOARD_WIDTH {
        assert_eq!(g.board[cell(x, 12)], Color::Garbage);
    }
    assert_eq!(g.board[cell(0, 11)], Color::Garbage);
}
