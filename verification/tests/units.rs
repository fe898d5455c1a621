use puyo_game::color::Color;
use puyo_game::geometry::{Coord, Direction};
use puyo_game::puyo::Puyo;
use puyo_game::chain::ChainTracker;

#[test]
fn apply_motion_unit_steps() {
    let c = Coord { x: 2, y: 5 };
    assert_eq!(c.apply_motion(Direction::Left), Coord { x: 1, y: 5 });
    assert_eq!(c.apply_motion(Direction::Right), Coord { x: 3, y: 5 });
    assert_eq!(c.apply_motion(Direction::Up), Coord { x: 2, y: 6 });
    assert_eq!(c.apply_motion(Direction::Down), Coord { x: 2, y: 4 });
    assert_eq!(c.apply_motion(Direction::Still), c);
}

#[test]
fn adjacency_is_unit_orthogonal() {
    let c = Coord { x: 3, y: 3 };
    assert!(c.is_adjacent(&Coord { x: 3, y: 4 }));
    assert!(c.is_adjacent(&Coord { x: 3, y: 2 }));
    assert!(c.is_adjacent(&Coord { x: 2, y: 3 }));
    assert!(c.is_adjacent(&Coord { x: 4, y: 3 }));
    assert!(!c.is_adjacent(&c));
    assert!(!c.is_adjacent(&Coord { x: 4, y: 4 }));
    assert!(!c.is_adjacent(&Coord { x: 3, y: 5 }));
}

#[test]
fn motion_to_maps_down_to_up() {
    let c = Coord { x: 2, y: 2 };
    assert_eq!(c.motion_to(&Coord { x: 1, y: 2 }), Direction::Left);
    assert_eq!(c.motion_to(&Coord { x: 3, y: 2 }), Direction::Right);
    assert_eq!(c.motion_to(&Coord { x: 2, y: 3 }), Direction::Up);
    // The downward neighbor also maps to Up; the engine only reads this
    // for horizontal pairs.
    assert_eq!(c.motion_to(&Coord { x: 2, y: 1 }), Direction::Up);
    assert_eq!(c.motion_to(&Coord { x: 4, y: 2 }), Direction::Still);
}

#[test]
fn each_real_never_yields_still() {
    let dirs = Direction::each_real();
    assert_eq!(dirs.len(), 4);
    assert!(!dirs.contains(&Direction::Still));
}

#[test]
fn is_normal_excludes_sentinels() {
    assert!(!Color::Empty.is_normal());
    assert!(!Color::Garbage.is_normal());
    for c in [Color::Red, Color::Green, Color::Blue, Color::Yellow, Color::Violet] {
        assert!(c.is_normal());
    }
}

#[test]
fn exclude_avoids_the_excluded_color() {
    for e in [Color::Red, Color::Green, Color::Blue, Color::Yellow, Color::Violet] {
        for _ in 0..40 {
            let c = Color::exclude(e);
            assert!(c.is_normal());
            assert_ne!(c, e);
        }
    }
    // A non-normal exclusion degrades to a draw over normal colors.
    for _ in 0..10 {
        assert!(Color::exclude(Color::Garbage).is_normal());
        assert!(Color::any().is_normal());
    }
}

#[test]
fn piece_from_excluded_avoids_color() {
    for _ in 0..20 {
        let p = Puyo::<Color>::from_excluded(Color::Blue);
        assert!(p.pivot().is_normal() && *p.pivot() != Color::Blue);
        assert!(p.wheel().is_normal() && *p.wheel() != Color::Blue);
    }
}

#[test]
fn piece_rotation_cycles_clockwise() {
    let pivot = Coord { x: 3, y: 3 };
    let mut p = Puyo::<Coord>::new(pivot, Coord { x: 4, y: 3 });
    p.rotate();
    assert_eq!(*p.wheel(), Coord { x: 3, y: 2 });
    p.rotate();
    assert_eq!(*p.wheel(), Coord { x: 2, y: 3 });
    p.rotate();
    assert_eq!(*p.wheel(), Coord { x: 3, y: 4 });
    p.rotate();
    assert_eq!(*p.wheel(), Coord { x: 4, y: 3 });
    assert_eq!(*p.pivot(), pivot);
}

#[test]
fn piece_flip_swaps_vertical_side() {
    let pivot = Coord { x: 2, y: 5 };
    let mut p = Puyo::<Coord>::new(pivot, Coord { x: 2, y: 6 });
    assert!(p.is_vertical());
    p.flip();
    assert_eq!(*p.wheel(), Coord { x: 2, y: 4 });
    p.flip();
    assert_eq!(*p.wheel(), Coord { x: 2, y: 6 });
}

#[test]
fn piece_move_translates_both_cells() {
    let mut p = Puyo::<Coord>::new(Coord { x: 2, y: 5 }, Coord { x: 3, y: 5 });
    p.move_(Direction::Down);
    assert_eq!(*p.pivot(), Coord { x: 2, y: 4 });
    assert_eq!(*p.wheel(), Coord { x: 3, y: 4 });
}

#[test]
fn chain_conversion_matches_formula_example() {
    // One group of four, one color, one cycle: bonus clamps up to 1,
    // score 40, under one garbage unit, remainder 40.
    let mut t = ChainTracker::new();
    t.record_group(Color::Red, 4);
    t.end_cycle();
    let garbage = t.convert_to_garbage();
    assert_eq!(garbage, 0);
    assert_eq!(t.leftover, 40);
    assert_eq!(t.total_cleared, 0);
    assert_eq!(t.num_chains, 0);
    assert_eq!(t.group_bonus, 0);
}

#[test]
fn chain_conversion_is_deterministic() {
    let run = || {
        let mut t = ChainTracker::new();
        t.record_group(Color::Red, 4);
        t.record_group(Color::Blue, 5);
        t.end_cycle();
        t.end_cycle();
        let g = t.convert_to_garbage();
        (g, t.leftover)
    };
    assert_eq!(run(), run());
}

#[test]
fn chain_power_doubles_per_cycle() {
    // Two cycles, one color, nine cleared cells in one group:
    // chain power 8, color bonus 0, group bonus 9 - 3 = 6, total 14;
    // score 10 * 9 * 14 = 1260; 18 garbage, remainder 0.
    let mut t = ChainTracker::new();
    t.record_group(Color::Green, 9);
    t.end_cycle();
    t.end_cycle();
    let garbage = t.convert_to_garbage();
    assert_eq!(garbage, 18);
    assert_eq!(t.leftover, 0);
}

#[test]
fn chain_group_bonus_caps_at_ten() {
    let mut t = ChainTracker::new();
    t.record_group(Color::Red, 11);
    assert_eq!(t.group_bonus, 10);
    t.record_group(Color::Red, 4);
    assert_eq!(t.group_bonus, 10);
    t.record_group(Color::Red, 5);
    assert_eq!(t.group_bonus, 12);
}

#[test]
fn chain_color_bonus_counts_distinct_colors() {
    // Two colors, one cycle: chain power 0, color bonus 3, group bonus 0,
    // eight cells: score 10 * 8 * 3 = 240; 3 garbage, remainder 30.
    let mut t = ChainTracker::new();
    t.record_group(Color::Red, 4);
    t.record_group(Color::Blue, 4);
    t.record_group(Color::Red, 4);
    t.end_cycle();
    assert_eq!(t.total_cleared, 12);
    let garbage = t.convert_to_garbage();
    // Three groups of four: 10 * 12 * clamp(0 + 3 + 0) = 360; 5 garbage,
    // remainder 10.
    assert_eq!(garbage, 5);
    assert_eq!(t.leftover, 10);
}

#[test]
fn chain_empty_conversion_is_a_no_op() {
    let mut t = ChainTracker::new();
    assert_eq!(t.convert_to_garbage(), 0);
    t.record_group(Color::Red, 4);
    t.end_cycle();
    t.convert_to_garbage();
    let leftover = t.leftover;
    // Nothing cleared since: the remainder persists untouched.
    assert_eq!(t.convert_to_garbage(), 0);
    assert_eq!(t.leftover, leftover);
}
