//! Running tally of cleared groups within one combo: cleared-cell total,
//! completed clear-cycles, distinct colors seen, group-size bonus, and the
//! fractional remainder carried from one score conversion to the next.
use vstd::prelude::*;
use crate::color::Color;

verus! {

pub const POINTS_PER_GARBAGE: u32 = 70;

#[derive(Clone, Debug)]
pub struct ChainTracker {
    pub total_cleared: u32,
    pub num_chains: u32,
    /// Whether each normal color, in their fixed order, has been cleared
    /// since the last conversion.
    pub seen_red: bool,
    pub seen_green: bool,
    pub seen_blue: bool,
    pub seen_yellow: bool,
    pub seen_violet: bool,
    pub group_bonus: u32,
    pub leftover: u32,
}

/// The bonus a single cleared group earns from its size.
pub open spec fn group_bonus_of(n: int) -> int {
    if n < 5 {
        0
    } else if n >= 11 {
        10
    } else {
        n - 3
    }
}

/// The chain power for a combo of `n` completed clear-cycles:
/// 0 below two cycles, 8 * 2^(n - 2) up to eight, 999 from nine on.
pub open spec fn chain_power_of(n: int) -> int {
    if n <= 1 {
        0
    } else if n >= 9 {
        999
    } else if n == 2 {
        8
    } else if n == 3 {
        16
    } else if n == 4 {
        32
    } else if n == 5 {
        64
    } else if n == 6 {
        128
    } else if n == 7 {
        256
    } else {
        512
    }
}

/// The bonus for the number of distinct colors cleared; meaningful for
/// counts from one to five, the only reachable ones.
pub open spec fn color_bonus_of(n: int) -> int {
    if n == 1 {
        0
    } else if n == 2 {
        3
    } else if n == 3 {
        6
    } else if n == 4 {
        12
    } else if n == 5 {
        24
    } else {
        0
    }
}

pub open spec fn clamp_bonus(n: int) -> int {
    if n < 1 {
        1
    } else if n > 999 {
        999
    } else {
        n
    }
}

impl ChainTracker {
    /// Whether the normal color at index `i` has been cleared this combo.
    pub open spec fn spec_seen(&self, i: int) -> bool {
        if i == 0 {
            self.seen_red
        } else if i == 1 {
            self.seen_green
        } else if i == 2 {
            self.seen_blue
        } else if i == 3 {
            self.seen_yellow
        } else {
            self.seen_violet
        }
    }

    /// How many distinct colors have been cleared this combo.
    pub open spec fn color_count(&self) -> int {
        (if self.seen_red {
            1int
        } else {
            0int
        }) + (if self.seen_green {
            1int
        } else {
            0int
        }) + (if self.seen_blue {
            1int
        } else {
            0int
        }) + (if self.seen_yellow {
            1int
        } else {
            0int
        }) + (if self.seen_violet {
            1int
        } else {
            0int
        })
    }

    /// The score the current counters are worth:
    /// 10 * cleared cells * (chain power + color bonus + group bonus,
    /// clamped to 1..=999).
    pub open spec fn score_of(&self) -> int {
        10 * self.total_cleared * clamp_bonus(
            chain_power_of(self.num_chains as int) + color_bonus_of(self.color_count())
                + self.group_bonus,
        )
    }

    /// Internal consistency: the carried remainder is a remainder mod 70,
    /// the group bonus never outruns the cleared total, and once anything
    /// has been cleared at least one color has been seen.
    pub open spec fn wf(&self) -> bool {
        &&& self.leftover < POINTS_PER_GARBAGE
        &&& self.group_bonus <= self.total_cleared
        &&& self.total_cleared > 0 ==> self.color_count() >= 1
    }

    pub open spec fn is_reset(&self) -> bool {
        &&& self.total_cleared == 0
        &&& self.num_chains == 0
        &&& self.color_count() == 0
        &&& self.group_bonus == 0
    }

    pub fn new() -> (r: Self)
        ensures
            r.wf(),
            r.is_reset(),
            r.leftover == 0,
    {
        ChainTracker {
            total_cleared: 0,
            num_chains: 0,
            seen_red: false,
            seen_green: false,
            seen_blue: false,
            seen_yellow: false,
            seen_violet: false,
            group_bonus: 0,
            leftover: 0,
        }
    }

    /// Record one cleared group: its color and how many cells went with it
    /// (the group itself plus any garbage it took along).
    pub fn record_group(&mut self, color: Color, num_puyo: u32)
        requires
            old(self).wf(),
            color.spec_is_normal(),
            old(self).total_cleared + num_puyo <= u32::MAX,
        ensures
            final(self).wf(),
            final(self).total_cleared == old(self).total_cleared + num_puyo,
            final(self).group_bonus == old(self).group_bonus + group_bonus_of(num_puyo as int),
            final(self).num_chains == old(self).num_chains,
            final(self).leftover == old(self).leftover,
            forall|i: int|
                0 <= i < 5 ==> final(self).spec_seen(i) == (old(self).spec_seen(i) || i
                    == color.normal_index()),
            final(self).color_count() >= old(self).color_count(),
            final(self).color_count() >= 1,
    {
        self.total_cleared = self.total_cleared + num_puyo;
        match color {
            Color::Red => self.seen_red = true,
            Color::Green => self.seen_green = true,
            Color::Blue => self.seen_blue = true,
            Color::Yellow => self.seen_yellow = true,
            _ => self.seen_violet = true,
        }
        let group_bonus: u32 = if num_puyo < 5 {
            0
        } else if num_puyo >= 11 {
            10
        } else {
            num_puyo - 3
        };
        self.group_bonus = self.group_bonus + group_bonus;
    }

    /// One clear-detection scan that cleared at least one group has
    /// finished: the combo is one cycle longer.
    pub fn end_cycle(&mut self)
        requires
            old(self).wf(),
            old(self).num_chains < u32::MAX,
        ensures
            final(self).wf(),
            *final(self) == (ChainTracker {
                num_chains: (old(self).num_chains + 1) as u32,
                ..*old(self)
            }),
    {
        self.num_chains = self.num_chains + 1;
    }

    fn get_score(&self) -> (r: u32)
        requires
            self.wf(),
            self.total_cleared > 0,
            self.total_cleared <= 429_496,
        ensures
            r == self.score_of(),
            r <= 4_290_665_040,
    {
        let chain_power: u32 = if self.num_chains <= 1 {
            0
        } else if self.num_chains >= 9 {
            999
        } else if self.num_chains == 2 {
            8
        } else if self.num_chains == 3 {
            16
        } else if self.num_chains == 4 {
            32
        } else if self.num_chains == 5 {
            64
        } else if self.num_chains == 6 {
            128
        } else if self.num_chains == 7 {
            256
        } else {
            512
        };
        let num_colors: u32 = (if self.seen_red {
            1u32
        } else {
            0u32
        }) + (if self.seen_green {
            1u32
        } else {
            0u32
        }) + (if self.seen_blue {
            1u32
        } else {
            0u32
        }) + (if self.seen_yellow {
            1u32
        } else {
            0u32
        }) + (if self.seen_violet {
            1u32
        } else {
            0u32
        });
        let color_bonus: u32 = if num_colors == 1 {
            0
        } else if num_colors == 2 {
            3
        } else if num_colors == 3 {
            6
        } else if num_colors == 4 {
            12
        } else {
            24
        };
        let total_bonus: u32 = chain_power + color_bonus + self.group_bonus;
        let total_bonus: u32 = if total_bonus < 1 {
            1
        } else {
            total_bonus
        };
        let total_bonus: u32 = if total_bonus > 999 {
            999
        } else {
            total_bonus
        };
        proof {
            assert(10 * self.total_cleared * total_bonus <= 10 * 429_496 * 999)
                by (nonlinear_arith)
                requires
                    self.total_cleared <= 429_496,
                    1 <= total_bonus <= 999,
            ;
        }
        10 * self.total_cleared * total_bonus
    }

    /// Convert the accumulated score into whole garbage units, carrying the
    /// remainder mod 70 to the next conversion. A tracker that has cleared
    /// nothing since the last conversion is left untouched and yields no
    /// garbage, so a multi-cycle cascade keeps accumulating across ticks.
    pub fn convert_to_garbage(&mut self) -> (garbage: u32)
        requires
            old(self).wf(),
            old(self).total_cleared <= 429_496,
        ensures
            final(self).wf(),
            old(self).total_cleared == 0 ==> *final(self) == *old(self) && garbage == 0,
            old(self).total_cleared > 0 ==> {
                &&& garbage == (old(self).score_of() + old(self).leftover) / (
                POINTS_PER_GARBAGE as int)
                &&& final(self).leftover == (old(self).score_of() + old(self).leftover) % (
                POINTS_PER_GARBAGE as int)
                &&& final(self).is_reset()
            },
    {
        if self.total_cleared == 0 {
            return 0;
        }
        let score = self.get_score() + self.leftover;
        let garbage = score / POINTS_PER_GARBAGE;
        self.total_cleared = 0;
        self.num_chains = 0;
        self.seen_red = false;
        self.seen_green = false;
        self.seen_blue = false;
        self.seen_yellow = false;
        self.seen_violet = false;
        self.group_bonus = 0;
        self.leftover = score % POINTS_PER_GARBAGE;
        garbage
    }
}

} // verus!
