//! The drawing stream: a cursor-based diff between the grid a presentation
//! layer last acknowledged and the live grid. Walked from the top row down,
//! left to right, it yields `Goto` to move the consumer's cursor and
//! `Paint` to draw one cell and step right. A ghost canvas tracks what a
//! consumer that applies every command as intended has drawn, and once the
//! stream ends that canvas is exactly the live grid.
use vstd::prelude::*;
use crate::color::Color;
use crate::geometry::Coord;
use crate::grid::{at_xy, board_wf, in_bounds, BOARD_CELLS, BOARD_HEIGHT, BOARD_WIDTH};

verus! {

#[derive(Copy, Clone, PartialEq, Eq, Structural, Debug)]
pub enum RenderCommand {
    Goto(Coord),
    Paint(Color),
}

/// How many unchanged cells a run may paint through before a `Goto` is
/// considered worth emitting instead.
pub const GOTO_THRESHOLD: usize = 2;

pub struct Renderer {
    pub front: Vec<Color>,
    pub back: Vec<Color>,
    pub row: usize,
    pub col: usize,
    pub paint_current: bool,
    /// Set at construction; while it stands, every paint run opens with a
    /// `Goto`, which disarms the run-skipping queue below.
    pub at_start: bool,
    pub at_end: bool,
    /// Colors of unchanged cells short enough to paint through; with
    /// `at_start` never cleared this queue stays empty, and it is kept for
    /// the day the stream starts trusting the consumer's cursor.
    pub queue: Vec<Color>,
    /// What a consumer that applies every command as intended has drawn so
    /// far, starting from the acknowledged grid.
    pub canvas: Ghost<Seq<Color>>,
    /// The consumer's cursor column and row.
    pub ccol: Ghost<int>,
    pub crow: Ghost<int>,
}

impl Renderer {
    /// Shape: two whole grids and an on-grid scan position.
    pub open spec fn wf(&self) -> bool {
        &&& board_wf(self.front@)
        &&& board_wf(self.back@)
        &&& self.row < BOARD_HEIGHT
        &&& self.col < BOARD_WIDTH
        &&& self.queue@.len() <= GOTO_THRESHOLD
    }

    /// The walk's meaning. Cells the scan has passed — higher rows, or the
    /// same row left of the cursor — already show the live grid on the
    /// consumer's canvas; cells not yet reached still show the
    /// acknowledged grid; a pending paint has the consumer's cursor
    /// aligned with the scan; and a finished walk has repainted
    /// everything.
    pub open spec fn stream_wf(&self) -> bool {
        &&& self.at_start
        &&& self.queue@.len() == 0
        &&& self.canvas@.len() == BOARD_CELLS
        &&& !self.at_end ==> forall|x: int, y: int|
            0 <= x < BOARD_WIDTH && 0 <= y < BOARD_HEIGHT && (y > self.row || (y == self.row && x
                < self.col)) ==> #[trigger] at_xy(self.canvas@, x, y) == at_xy(self.back@, x, y)
        &&& !self.at_end ==> forall|x: int, y: int|
            0 <= x < BOARD_WIDTH && 0 <= y < BOARD_HEIGHT && (y < self.row || (y == self.row && x
                >= self.col)) ==> #[trigger] at_xy(self.canvas@, x, y) == at_xy(self.front@, x, y)
        &&& self.at_end ==> self.canvas@ == self.back@
        &&& self.paint_current ==> !self.at_end && self.crow@ == self.row && self.ccol@
            == self.col
    }

    /// How many cells are left to walk, counting the current one.
    pub open spec fn remaining(&self) -> int {
        if self.at_end {
            0
        } else {
            self.row * BOARD_WIDTH + BOARD_WIDTH - self.col
        }
    }

    /// How much of the stream is left: strictly decreases with every
    /// command handed out, so a drain loop terminates.
    pub open spec fn stream_measure(&self) -> int {
        2 * self.remaining() + if self.paint_current {
            0int
        } else {
            1int
        }
    }

    /// A stream over the two grids, positioned at the top-left cell, its
    /// consumer's canvas still showing the acknowledged grid.
    pub fn new(front: &Vec<Color>, back: &Vec<Color>) -> (r: Renderer)
        requires
            board_wf(front@),
            board_wf(back@),
        ensures
            r.wf(),
            r.stream_wf(),
            r.front@ == front@,
            r.back@ == back@,
            r.canvas@ == front@,
            r.row == BOARD_HEIGHT - 1 && r.col == 0,
            r.at_start && !r.at_end && !r.paint_current,
            r.ccol@ == 0 && r.crow@ == 0,
    {
        let mut f: Vec<Color> = Vec::new();
        let mut b: Vec<Color> = Vec::new();
        let mut i: usize = 0;
        while i < BOARD_CELLS
            invariant
                board_wf(front@),
                board_wf(back@),
                i <= BOARD_CELLS,
                f@.len() == i,
                b@.len() == i,
                forall|j: int| 0 <= j < i ==> f@[j] == front@[j] && b@[j] == back@[j],
            decreases BOARD_CELLS - i,
        {
            f.push(front[i]);
            b.push(back[i]);
            i = i + 1;
        }
        proof {
            assert(f@ =~= front@);
            assert(b@ =~= back@);
        }
        Renderer {
            front: f,
            back: b,
            row: BOARD_HEIGHT - 1,
            col: 0,
            paint_current: false,
            at_start: true,
            at_end: false,
            queue: Vec::new(),
            canvas: Ghost(front@),
            ccol: Ghost(0),
            crow: Ghost(0),
        }
    }

    /// Step the scan one cell to the right, wrapping to the next row down,
    /// and report what happened.
    fn advance(&mut self) -> (r: AdvanceResult)
        requires
            old(self).wf(),
        ensures
            final(self).wf(),
            old(self).at_end ==> *final(self) == *old(self) && final(self).at_end,
            (r is End) == final(self).at_end,
            !old(self).at_end ==> final(self).remaining() < old(self).remaining(),
            !old(self).at_end ==> (if old(self).col + 1 < BOARD_WIDTH {
                final(self).row == old(self).row && final(self).col == old(self).col + 1 && !final(self).at_end
            } else if old(self).row > 0 {
                final(self).row == old(self).row - 1 && final(self).col == 0 && !final(self).at_end
            } else {
                final(self).at_end
            }),
            *final(self) == (Renderer {
                row: final(self).row,
                col: final(self).col,
                at_end: final(self).at_end,
                ..*old(self)
            }),
    {
        if self.at_end {
            return AdvanceResult::End;
        }
        self.col = self.col + 1;
        if self.col >= BOARD_WIDTH {
            self.col = 0;
            if self.row == 0 {
                self.at_end = true;
                return AdvanceResult::End;
            } else {
                self.row = self.row - 1;
                return AdvanceResult::NewRow;
            }
        }
        AdvanceResult::Normal
    }

    /// Whether the two grids agree at the scan position.
    fn same(&self) -> (r: bool)
        requires
            self.wf(),
            !self.at_end,
        ensures
            r == (self.front@[self.row * BOARD_WIDTH + self.col] == self.back@[self.row
                * BOARD_WIDTH + self.col]),
    {
        let i = self.row * BOARD_WIDTH + self.col;
        self.front[i] == self.back[i]
    }

    /// The next drawing command, or `None` once the whole grid has been
    /// walked. Applying the commands as the ghost clauses describe — a
    /// `Goto` moves the cursor, a `Paint` colors the cell under it and
    /// steps right — turns the acknowledged grid into the live one: when
    /// the stream ends the canvas equals the live grid exactly.
    pub fn next(&mut self) -> (r: Option<RenderCommand>)
        requires
            old(self).wf(),
            old(self).stream_wf(),
        ensures
            final(self).wf(),
            final(self).stream_wf(),
            final(self).front@ == old(self).front@,
            final(self).back@ == old(self).back@,
            r is None ==> final(self).at_end && final(self).canvas@ == old(self).back@ && final(self).canvas@ == old(self).canvas@,
            r is Some ==> final(self).stream_measure() < old(self).stream_measure(),
            !old(self).paint_current ==> (r matches Some(c) ==> c is Goto),
            (r matches Some(c) ==> match c {
                RenderCommand::Goto(g) => {
                    &&& in_bounds(g)
                    &&& final(self).canvas@ == old(self).canvas@
                    &&& final(self).ccol@ == g.x && final(self).crow@ == g.y
                },
                RenderCommand::Paint(p) => {
                    &&& 0 <= old(self).ccol@ < BOARD_WIDTH && 0 <= old(self).crow@ < BOARD_HEIGHT
                    &&& final(self).canvas@ == old(self).canvas@.update(
                        old(self).crow@ * BOARD_WIDTH + old(self).ccol@,
                        p,
                    )
                    &&& final(self).ccol@ == old(self).ccol@ + 1 && final(self).crow@ == old(self).crow@
                },
            }),
    {
        if self.at_end {
            return None;
        }
        if self.queue.len() > 0 {
            let c = self.queue.remove(0);
            return Some(RenderCommand::Paint(c));
        }
        if self.paint_current {
            let i = self.row * BOARD_WIDTH + self.col;
            let color = self.back[i];
            self.paint_current = false;
            proof {
                self.canvas@ = self.canvas@.update(i as int, color);
                self.ccol@ = self.ccol@ + 1;
            }
            let ghost pre = *self;
            self.advance();
            proof {
                if self.at_end {
                    assert forall|x: int, y: int|
                        0 <= x < BOARD_WIDTH && 0 <= y
                            < BOARD_HEIGHT implies #[trigger] at_xy(self.canvas@, x, y) == at_xy(
                        self.back@,
                        x,
                        y,
                    ) by {
                        if !(y == pre.row && x == pre.col) {
                            assert(y > pre.row || (y == pre.row && x < pre.col));
                            assert(y * BOARD_WIDTH + x != pre.row * BOARD_WIDTH + pre.col);
                            assert(at_xy(pre.canvas@, x, y) == at_xy(old(self).canvas@, x, y));
                            assert(at_xy(old(self).canvas@, x, y) == at_xy(old(self).back@, x, y));
                        }
                    }
                    lemma_canvas_covers(self.canvas@, self.back@);
                } else {
                    assert forall|x: int, y: int|
                        0 <= x < BOARD_WIDTH && 0 <= y < BOARD_HEIGHT && (y > self.row || (y
                            == self.row && x < self.col)) implies #[trigger] at_xy(
                        self.canvas@,
                        x,
                        y,
                    ) == at_xy(self.back@, x, y) by {
                        if !(y == pre.row && x == pre.col) {
                            assert(y > pre.row || (y == pre.row && x < pre.col));
                            assert(y * BOARD_WIDTH + x != pre.row * BOARD_WIDTH + pre.col);
                            assert(at_xy(pre.canvas@, x, y) == at_xy(old(self).canvas@, x, y));
                            assert(at_xy(old(self).canvas@, x, y) == at_xy(old(self).back@, x, y));
                        }
                    }
                    assert forall|x: int, y: int|
                        0 <= x < BOARD_WIDTH && 0 <= y < BOARD_HEIGHT && (y < self.row || (y
                            == self.row && x >= self.col)) implies #[trigger] at_xy(
                        self.canvas@,
                        x,
                        y,
                    ) == at_xy(self.front@, x, y) by {
                        assert(!(y == pre.row && x == pre.col));
                        assert(y < pre.row || (y == pre.row && x >= pre.col));
                        assert(y * BOARD_WIDTH + x != pre.row * BOARD_WIDTH + pre.col);
                        assert(at_xy(pre.canvas@, x, y) == at_xy(old(self).canvas@, x, y));
                        assert(at_xy(old(self).canvas@, x, y) == at_xy(old(self).front@, x, y));
                    }
                }
            }
            return Some(RenderCommand::Paint(color));
        }
        let mut need_goto = self.at_start;
        while !self.at_end && self.same()
            invariant
                self.wf(),
                self.stream_wf(),
                need_goto,
                !self.at_end,
                !self.paint_current,
                self.remaining() <= old(self).remaining(),
                self.front@ == old(self).front@,
                self.back@ == old(self).back@,
                self.canvas@ == old(self).canvas@,
                self.ccol@ == old(self).ccol@,
                self.crow@ == old(self).crow@,
            decreases self.remaining(),
        {
            if !need_goto {
                if self.queue.len() < GOTO_THRESHOLD {
                    let c = self.back[self.row * BOARD_WIDTH + self.col];
                    self.queue.push(c);
                } else {
                    need_goto = true;
                    self.queue.clear();
                }
            }
            let ghost pre = *self;
            proof {
                assert(pre.stream_wf() && !pre.at_end);
            }
            match self.advance() {
                AdvanceResult::NewRow => {
                    need_goto = true;
                    self.queue.clear();
                },
                AdvanceResult::Normal => {},
                AdvanceResult::End => {
                    proof {
                        assert forall|x: int, y: int|
                            0 <= x < BOARD_WIDTH && 0 <= y
                                < BOARD_HEIGHT implies #[trigger] at_xy(self.canvas@, x, y)
                            == at_xy(self.back@, x, y) by {
                            if y == pre.row && x == pre.col {
                                assert(at_xy(pre.canvas@, x, y) == at_xy(pre.front@, x, y));
                            } else {
                                assert(y > pre.row || (y == pre.row && x < pre.col));
                                assert(at_xy(pre.canvas@, x, y) == at_xy(pre.back@, x, y));
                            }
                        }
                        lemma_canvas_covers(self.canvas@, self.back@);
                    }
                    return None;
                },
            }
        }
        if self.queue.len() > 0 {
            self.paint_current = true;
            let c = self.queue.remove(0);
            return Some(RenderCommand::Paint(c));
        }
        if need_goto {
            self.paint_current = true;
            proof {
                self.ccol@ = self.col as int;
                self.crow@ = self.row as int;
            }
            return Some(
                RenderCommand::Goto(Coord { x: self.col as i32, y: self.row as i32 }),
            );
        }
        let color = self.back[self.row * BOARD_WIDTH + self.col];
        self.advance();
        Some(RenderCommand::Paint(color))
    }
}

enum AdvanceResult {
    End,
    NewRow,
    Normal,
}

/// A canvas that shows the live grid cell by cell is the live grid.
proof fn lemma_canvas_covers(canvas: Seq<Color>, back: Seq<Color>)
    requires
        canvas.len() == BOARD_CELLS,
        back.len() == BOARD_CELLS,
        forall|x: int, y: int|
            0 <= x < BOARD_WIDTH && 0 <= y < BOARD_HEIGHT ==> #[trigger] at_xy(canvas, x, y)
                == at_xy(back, x, y),
    ensures
        canvas == back,
{
    assert forall|i: int| 0 <= i < BOARD_CELLS implies canvas[i] == back[i] by {
        let y = i / (BOARD_WIDTH as int);
        let x = i % (BOARD_WIDTH as int);
        assert(0 <= x < BOARD_WIDTH && 0 <= y < BOARD_HEIGHT);
        assert(y * BOARD_WIDTH + x == i);
        assert(at_xy(canvas, x, y) == at_xy(back, x, y));
    }
    assert(canvas =~= back);
}

} // verus!
