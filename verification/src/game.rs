//! The game: the board with its walls and floor, the falling piece, the hold
//! slot, the queue of next pieces, scoring, line clearing, gravity, and the
//! step that advances the game by one frame.
use vstd::prelude::*;

pub use crate::block::Block;
use crate::generator::{BagView, MinoGenerator, deal_all, deals_ok, spec_index_of_kind};
use crate::board::{
    clear_score, closed_field, count_full, count_full_rows, drop_distance, drop_rows, stamped, empty_row, floor_row, initial_field,
    lands_after, lemma_count_full_bound, lemma_count_full_window, lemma_stamp_occupies, lemma_stamp_full_rows, lemma_drop_distance, lemma_lands, lemma_fits_in_board, lemma_in_board_bounds,
    lemma_kept_from, lemma_kept_len, lemma_spawn_in_board, closed_prefix, count_targets,
    kept_rows, mark_clearing, paint, preview_block, row_full, sped_up, spawned, stamp,
    walls_intact,
};
use crate::mino::{Color, Dir, MinoKind, spec_color};
use crate::piece::{ControlledMino, field_view, lemma_spin_room, lemma_spun, spec_cell, spec_in_board};
use std::collections::VecDeque;

verus! {

/// Pieces shown in the queue of next pieces.
pub const NEXTS: u32 = 3;

/// Frames a new piece falls before it may be fixed by gravity.
pub const SAFTY_FRAMES: u32 = 90;

/// Frames that completed lines are shown before they disappear.
pub const INTERVAL: u32 = 20;

/// Lines cleared per speed-up.
pub const LEVEL_UP_LINE_NUM: u32 = 10;

/// The fastest gravity: one row every this many frames.
pub const MAX_GRAVITY_RECIP: u32 = 5;

/// Whether a piece is falling, or completed lines are being shown (for the
/// given number of frames so far).
#[derive(Debug, Clone, Copy, PartialEq, Eq, Structural)]
pub enum DroppingState {
    Dropping,
    Interval(u32),
}

/// The hold slot.
#[derive(Debug, Clone, Copy, PartialEq, Eq, Structural)]
pub enum Hold {
    Holding(MinoKind),
    Empty,
}

/// Gravity: the piece falls a row every `reciprocal` frames; it is fixed
/// after `drop_limit` frames, or once it has come to rest (`fix_flag`).
#[derive(Debug, Clone, Copy, PartialEq, Eq, Structural)]
pub struct Gravity {
    pub reciprocal: u32,
    pub drop_limit: u32,
    pub fix_flag: bool,
}

impl Gravity {
    /// The starting gravity: a row every 45 frames, fixed after 900.
    pub fn new() -> (r: Gravity)
        ensures
            r == (Gravity { reciprocal: 45, drop_limit: 900, fix_flag: false }),
    {
        let reciprocal: u32 = 45;
        let drop_limit: u32 = 20 * reciprocal;
        Gravity { reciprocal, drop_limit, fix_flag: false }
    }
}

/// The game as its contracts see it.
pub struct GameView {
    pub field: Seq<Seq<Block>>,
    pub total_frames: u32,
    pub current_frames: u32,
    pub cont: ControlledMino,
    pub hold: Hold,
    pub holdflag: bool,
    pub next: Seq<MinoKind>,
    pub bag: BagView,
    pub score: u32,
    pub clearlines: u32,
    pub cleartargets: Seq<bool>,
    pub dropping: DroppingState,
    pub game_over: bool,
    pub gravity: Gravity,
}

/// What the board shows at row `x`, column `y`: the falling piece over its
/// landing place (drawn grey) over the board, while a piece is falling.
pub open spec fn rendered(v: GameView, x: int, y: int) -> Block {
    let c = v.cont;
    let g = c.shifted(drop_distance(v.field, c), 0);
    if v.dropping == DroppingState::Dropping && spec_cell(c.mino, c.dir, x - c.pos.0, y - c.pos.1) {
        Block { filled: true, color: spec_color(c.mino), clearing: false }
    } else if v.dropping == DroppingState::Dropping && spec_cell(
        c.mino,
        c.dir,
        x - g.pos.0,
        y - g.pos.1,
    ) {
        Block { filled: false, color: Color::Gray, clearing: false }
    } else {
        v.field[x][y]
    }
}

/// The cells marked as being cleared are exactly the inner cells (between
/// the walls) of the rows marked for removal.
pub open spec fn clear_marks(field: Seq<Seq<Block>>, targets: Seq<bool>) -> bool {
    forall|i: int, j: int|
        0 <= i < 22 && 0 <= j < 12 ==> #[trigger] field[i][j].clearing == (i < 21 && 1 <= j < 11
            && targets[i])
}

impl GameView {
    /// What holds of every state the game can be in: the shape of the state,
    /// and the marks of completed rows (see [`GameView::marks_ok`]).
    pub open spec fn inv(self) -> bool {
        &&& self.inv_core()
        &&& self.marks_ok()
    }

    /// While a piece falls no row is complete or marked; during the pause
    /// the marked rows are exactly the complete ones, and their inner cells
    /// are the ones shown as clearing. Every line cleared scored at least 100.
    pub open spec fn marks_ok(self) -> bool {
        &&& clear_marks(self.field, self.cleartargets)
        &&& self.dropping == DroppingState::Dropping ==> forall|i: int|
            0 <= i < 21 ==> !#[trigger] self.cleartargets[i] && !row_full(self.field, i)
        &&& self.dropping != DroppingState::Dropping ==> forall|i: int|
            0 <= i < 21 ==> #[trigger] self.cleartargets[i] == row_full(self.field, i)
        &&& self.score >= 100 * self.clearlines
    }

    /// A completed-row check may run: the marked rows (if any) are complete
    /// and shown as clearing, at most four rows are complete, and every line
    /// cleared so far scored at least 100.
    pub open spec fn clear_ready(self) -> bool {
        &&& clear_marks(self.field, self.cleartargets)
        &&& forall|i: int| 0 <= i < 21 && #[trigger] self.cleartargets[i] ==> row_full(self.field, i)
        &&& count_full(self.field, 21) <= 4
        &&& self.score >= 100 * self.clearlines
    }

    /// The shape of every state: board size, walls and floor, a queue of
    /// three dealt pieces, a fair randomiser, gravity within bounds, a pause
    /// of at most 21 frames, and the falling piece inside the board.
    pub open spec fn inv_core(self) -> bool {
        &&& self.field.len() == 22
        &&& forall|i: int| 0 <= i < 22 ==> #[trigger] self.field[i].len() == 12
        &&& self.next.len() == 3
        &&& forall|i: int| 0 <= i < 3 ==> #[trigger] self.next[i] != MinoKind::D
        &&& self.bag.wf()
        &&& 5 <= self.gravity.reciprocal <= 45
        &&& self.gravity.drop_limit == 900
        &&& self.cleartargets.len() == 21
        &&& walls_intact(self.field)
        &&& (self.dropping matches DroppingState::Interval(f) ==> f <= 21)
        &&& self.cont.mino != MinoKind::D ==> {
            &&& -3 <= self.cont.pos.0 <= 21
            &&& -3 <= self.cont.pos.1 <= 11
            &&& spec_in_board(
                self.cont.mino,
                self.cont.dir,
                self.cont.pos.0 as int,
                self.cont.pos.1 as int,
            )
        }
    }

    /// Completed rows are marked, scored and counted, gravity speeds up at
    /// every tenth line, and the game pauses to show them.
    #[verifier::opaque]
    pub open spec fn lines_clear(self) -> GameView {
        let cls = count_full(self.field, 21);
        let lines = self.clearlines + cls;
        GameView {
            field: mark_clearing(self.field),
            cleartargets: Seq::new(21, |i: int| self.cleartargets[i] || row_full(self.field, i)),
            score: (self.score + clear_score(cls)) as u32,
            clearlines: lines as u32,
            gravity: if cls > 0 && lines % (LEVEL_UP_LINE_NUM as int) == 0 {
                Gravity { reciprocal: sped_up(self.gravity.reciprocal), ..self.gravity }
            } else {
                self.gravity
            },
            dropping: DroppingState::Interval(0),
            ..self
        }
    }

    /// The marked rows are removed and the rows above them move down.
    #[verifier::opaque]
    pub open spec fn lines_close(self) -> GameView {
        GameView {
            field: closed_field(self.field, self.cleartargets),
            cleartargets: Seq::new(21, |i: int| false),
            ..self
        }
    }

    /// A piece that can still fall is left where it is; otherwise it becomes
    /// part of the board, the empty piece takes its place, and lines clear.
    #[verifier::opaque]
    pub open spec fn fix_mino(self) -> GameView {
        let f = self.field;
        if self.cont.shifted(1, 0).fits(f) {
            GameView { cont: self.cont.try_move(f, 1, 0).try_move(f, -1, 0), ..self }
        } else {
            GameView {
                field: stamp(f, self.cont),
                cont: spawned(MinoKind::D),
                gravity: Gravity { fix_flag: false, ..self.gravity },
                ..self
            }.lines_clear()
        }
    }

    /// The piece moves one row down if it fits there, scoring a point.
    #[verifier::opaque]
    pub open spec fn soft_drop(self) -> GameView {
        if self.cont.shifted(1, 0).fits(self.field) {
            GameView { cont: self.cont.shifted(1, 0), score: (self.score + 1) as u32, ..self }
        } else {
            self
        }
    }

    /// The piece falls as far as it can, scoring a point per row.
    #[verifier::opaque]
    pub open spec fn hard_drop(self) -> GameView {
        let n = drop_distance(self.field, self.cont);
        GameView { cont: self.cont.shifted(n, 0), score: (self.score + n) as u32, ..self }
    }

    /// The state with the falling piece replaced.
    pub open spec fn with_cont(self, c: ControlledMino) -> GameView {
        GameView { cont: c, ..self }
    }

    /// A new piece of kind `k` starts at the spawn point; the game is over
    /// if it does not fit there.
    pub open spec fn drop_start(self, k: MinoKind) -> GameView {
        GameView {
            cont: spawned(k),
            current_frames: 0,
            game_over: !spawned(k).fits(self.field),
            ..self
        }
    }

    /// The falling piece goes to the hold slot; the held piece, or else the
    /// next in the queue (the queue taking in `k`, newly dealt), starts.
    #[verifier::opaque]
    pub open spec fn hold_swap(self, k: MinoKind) -> GameView {
        let held = GameView { hold: Hold::Holding(self.cont.mino), holdflag: true, ..self };
        match self.hold {
            Hold::Holding(m) => held.drop_start(m),
            Hold::Empty => GameView {
                next: seq![k] + self.next.drop_last(),
                bag: self.bag.after_deal(spec_index_of_kind(k)),
                ..held
            }.drop_start(self.next.last()),
        }
    }

    /// One step of gravity: the piece falls a row; a piece that cannot fall
    /// is fixed once it has rested long enough, or marked as resting.
    #[verifier::opaque]
    pub open spec fn gravity_step(self) -> GameView {
        let f = self.field;
        let c = self.cont;
        let moved = c.shifted(1, 0).fits(f);
        let c1 = c.try_move(f, 1, 0);
        let fix_cond = self.current_frames > SAFTY_FRAMES && (self.gravity.fix_flag
            || self.current_frames > self.gravity.drop_limit);
        if fix_cond && !moved {
            self.fix_mino()
        } else if c1.shifted(1, 0).fits(f) {
            self.with_cont(c1.try_move(f, 1, 0).try_move(f, -1, 0))
        } else {
            GameView { cont: c1, gravity: Gravity { fix_flag: true, ..self.gravity }, ..self }
        }
    }

    /// The end of the pause after a clear: the lines disappear and the next
    /// piece starts, the queue taking in `k`, newly dealt.
    #[verifier::opaque]
    pub open spec fn interval_end(self, k: MinoKind) -> GameView {
        let v1 = self.lines_close();
        GameView {
            next: seq![k] + v1.next.drop_last(),
            bag: v1.bag.after_deal(spec_index_of_kind(k)),
            holdflag: false,
            dropping: DroppingState::Dropping,
            ..v1.drop_start(v1.next.last())
        }
    }

    /// Whether a step with these keys deals a new piece.
    pub open spec fn deals(self, keys: [bool; 7]) -> bool {
        match self.dropping {
            DroppingState::Interval(f) => f > INTERVAL,
            DroppingState::Dropping => keys[6] && !self.holdflag && self.hold == Hold::Empty,
        }
    }

    /// The turn keys: either clears the resting mark; A turns right, else B
    /// turns left.
    pub open spec fn spin_phase(self, keys: [bool; 7]) -> GameView {
        let f = self.field;
        let v1 = if keys[0] || keys[1] {
            GameView { gravity: Gravity { fix_flag: false, ..self.gravity }, ..self }
        } else {
            self
        };
        if keys[0] {
            v1.with_cont(v1.cont.spun_right(f))
        } else if keys[1] {
            v1.with_cont(v1.cont.spun_left(f))
        } else {
            v1
        }
    }

    /// The drop and move keys: hard drop (then fix), then down, else right,
    /// else left.
    pub open spec fn move_phase(self, keys: [bool; 7]) -> GameView {
        let v3 = self.drop_part(keys);
        if keys[3] {
            v3.soft_drop()
        } else if keys[4] {
            v3.with_cont(v3.cont.try_move(v3.field, 0, 1))
        } else if keys[5] {
            v3.with_cont(v3.cont.try_move(v3.field, 0, -1))
        } else {
            v3
        }
    }

    /// The hard drop key: the piece drops and is fixed.
    pub open spec fn drop_part(self, keys: [bool; 7]) -> GameView {
        if keys[2] {
            self.hard_drop().fix_mino()
        } else {
            self
        }
    }

    /// The hold key, if the hold slot may be used.
    pub open spec fn hold_phase(self, keys: [bool; 7], k: MinoKind) -> GameView {
        if keys[6] && !self.holdflag {
            self.hold_swap(k)
        } else {
            self
        }
    }

    /// Gravity acts every `reciprocal` frames; the frame counters advance.
    pub open spec fn fall_phase(self) -> GameView {
        let v6 = if self.current_frames % self.gravity.reciprocal == 0 {
            self.gravity_step()
        } else {
            self
        };
        GameView {
            total_frames: (v6.total_frames + 1) as u32,
            current_frames: (v6.current_frames + 1) as u32,
            ..v6
        }
    }

    /// One frame of the game with the given keys pressed (A: turn right,
    /// B: turn left, hard drop, down, right, left, hold), `k` being the kind
    /// dealt if the step deals one. During the pause after a clear, keys are
    /// ignored and the pause advances (or ends).
    pub open spec fn clock(self, keys: [bool; 7], k: MinoKind) -> GameView {
        match self.dropping {
            DroppingState::Interval(f) => if f > INTERVAL {
                self.interval_end(k)
            } else {
                GameView { dropping: DroppingState::Interval((f + 1) as u32), ..self }
            },
            DroppingState::Dropping => self.spin_phase(keys).move_phase(keys).hold_phase(
                keys,
                k,
            ).fall_phase(),
        }
    }
}

/// The game.
pub struct Game {
    field: [[Block; 12]; 22],
    total_frames: u32,
    current_frames: u32,
    contmino: ControlledMino,
    holdmino: Hold,
    holdflag: bool,
    nextminos: VecDeque<MinoKind>,
    minogen: MinoGenerator,
    score: u32,
    clearlines: u32,
    cleartargets: [bool; 21],
    dropping: DroppingState,
    game_over: bool,
    gravity: Gravity,
}

impl View for Game {
    type V = GameView;

    closed spec fn view(&self) -> GameView {
        GameView {
            field: field_view(self.field),
            total_frames: self.total_frames,
            current_frames: self.current_frames,
            cont: self.contmino,
            hold: self.holdmino,
            holdflag: self.holdflag,
            next: self.nextminos@,
            bag: self.minogen@,
            score: self.score,
            clearlines: self.clearlines,
            cleartargets: self.cleartargets@,
            dropping: self.dropping,
            game_over: self.game_over,
            gravity: self.gravity,
        }
    }
}

impl Game {
    /// The game's state is one that play can reach.
    pub closed spec fn wf(&self) -> bool {
        &&& self@.inv()
        &&& self.minogen.wf()
    }

    /// The state's shape is one that play can reach (the marks of completed
    /// rows aside).
    pub closed spec fn core_wf(&self) -> bool {
        &&& self@.inv_core()
        &&& self.minogen.wf()
    }

    /// A new game: an empty board, four pieces dealt (the first falling, the
    /// other three queued, the latest dealt at the front), nothing held.
    pub fn new() -> (r: Game)
        ensures
            r.wf(),
            r@.inv(),
            r@.field == initial_field(),
            r@.total_frames == 0,
            r@.current_frames == 0,
            r@.cont == spawned(r@.cont.mino),
            r@.cont.mino != MinoKind::D,
            r@.hold == Hold::Empty,
            !r@.holdflag,
            r@.score == 0,
            r@.clearlines == 0,
            r@.cleartargets == Seq::new(21, |i: int| false),
            r@.dropping == DroppingState::Dropping,
            !r@.game_over,
            r@.gravity == (Gravity { reciprocal: 45, drop_limit: 900, fix_flag: false }),
            deals_ok(BagView::fresh(), seq![r@.cont.mino, r@.next[2], r@.next[1], r@.next[0]]),
            r@.bag == deal_all(
                BagView::fresh(),
                seq![r@.cont.mino, r@.next[2], r@.next[1], r@.next[0]],
            ),
    {
        let empty = Block::new(false, Color::Trans);
        let wall = Block::new(true, Color::Trans);
        let mut line: [Block; 12] = [empty; 12];
        line[0] = wall;
        line[11] = wall;
        let floor: [Block; 12] = [wall; 12];
        let mut field: [[Block; 12]; 22] = [line; 22];
        field[21] = floor;
        proof {
            assert(line@ =~= empty_row());
            assert(floor@ =~= floor_row());
            assert(field_view(field) =~= initial_field()) by {
                assert forall|i: int| 0 <= i < 22 implies #[trigger] field_view(field)[i]
                    == initial_field()[i] by {
                    if i == 21 {
                        assert(field[i]@ =~= floor_row());
                    } else {
                        assert(field[i]@ =~= empty_row());
                    }
                }
            }
        }
        let mut minogen = MinoGenerator::new();
        let mut nextminos: VecDeque<MinoKind> = VecDeque::new();
        let ghost mut ks: Seq<MinoKind> = Seq::empty();
        let mut n: u32 = 0;
        while n < NEXTS + 1
            invariant
                n <= NEXTS + 1,
                minogen.wf(),
                minogen@.round <= n,
                ks.len() == n,
                nextminos@.len() == n,
                forall|a: int| 0 <= a < n ==> #[trigger] nextminos@[a] == ks[n - 1 - a],
                forall|a: int| 0 <= a < n ==> #[trigger] ks[a] != MinoKind::D,
                deals_ok(BagView::fresh(), ks),
                minogen@ == deal_all(BagView::fresh(), ks),
            decreases NEXTS + 1 - n,
        {
            let k = minogen.generate();
            nextminos.push_front(k);
            proof {
                let ks2 = ks.push(k);
                assert(ks2.drop_last() =~= ks);
                ks = ks2;
            }
            n += 1;
        }
        let first = nextminos.pop_back().unwrap();
        let r = Game {
            field,
            total_frames: 0,
            current_frames: 0,
            contmino: ControlledMino::new(first),
            holdmino: Hold::Empty,
            holdflag: false,
            nextminos,
            minogen,
            score: 0,
            clearlines: 0,
            cleartargets: [false; 21],
            dropping: DroppingState::Dropping,
            game_over: false,
            gravity: Gravity::new(),
        };
        proof {
            assert(r@.cleartargets =~= Seq::new(21, |i: int| false));
            r.minogen.lemma_wf();
            assert(r@.bag.wf());
            assert(forall|i: int| 0 <= i < 3 ==> #[trigger] r@.next[i] != MinoKind::D);
            assert(r@.field.len() == 22);
            assert(forall|i: int| 0 <= i < 22 ==> #[trigger] r@.field[i].len() == 12);
            assert(seq![r@.cont.mino, r@.next[2], r@.next[1], r@.next[0]] =~= ks);
            assert forall|x: int| 0 <= x < 21 implies !#[trigger] r@.cleartargets[x] && !row_full(
                r@.field,
                x,
            ) by {
                assert(!r@.field[x][1].filled);
            }
            assert forall|x: int, y: int| 0 <= x < 22 && 0 <= y < 12 implies #[trigger] r@.field[x][y].clearing
                == (x < 21 && 1 <= y < 11 && r@.cleartargets[x]) by {}
            assert(spec_in_board(first, Dir::North, 0, 4)) by {
                assert forall|i: int, j: int|
                    #[trigger] spec_cell(first, Dir::North, i, j) implies 0 <= 0 + i < 22 && 0 <= 4
                    + j < 12 by {}
            }
        }
        r
    }

    /// The score.
    pub fn get_score(&self) -> (r: u32)
        ensures
            r == self@.score,
    {
        self.score
    }

    /// The number of lines cleared so far.
    pub fn get_clearlines(&self) -> (r: u32)
        ensures
            r == self@.clearlines,
    {
        self.clearlines
    }

    /// Whether the game is over: the last piece to start did not fit.
    pub fn is_gameover(&self) -> (r: bool)
        ensures
            r == self@.game_over,
    {
        self.game_over
    }

    /// The hold slot may be used: no swap since the current piece started.
    pub fn can_use_hold(&self) -> (r: bool)
        ensures
            r == !self@.holdflag,
    {
        !self.holdflag
    }

    /// How far the pause after a clear has come, as frames shown so far and
    /// frames in all (`(0, 20)` while a piece is falling).
    pub fn get_interval_ratio(&self) -> (r: (u32, u32))
        ensures
            r == (match self@.dropping {
                DroppingState::Interval(f) => (f, 20u32),
                DroppingState::Dropping => (0u32, 20u32),
            }),
    {
        match self.dropping {
            DroppingState::Interval(f) => (f, INTERVAL),
            DroppingState::Dropping => (0, INTERVAL),
        }
    }

    /// The 4x4 display of the `i`-th queued piece (front first), or an
    /// empty display past the end of the queue.
    pub fn rend_next(&self, i: usize) -> (r: Vec<Vec<Block>>)
        requires
            self.wf(),
        ensures
            r@.len() == 4,
            forall|a: int| 0 <= a < 4 ==> #[trigger] r@[a]@.len() == 4,
            forall|a: int, b: int|
                0 <= a < 4 && 0 <= b < 4 ==> #[trigger] r@[a]@[b] == preview_block(
                    if i < 3 {
                        self@.next[i as int]
                    } else {
                        MinoKind::D
                    },
                    a,
                    b,
                ),
    {
        let m = if i < self.nextminos.len() {
            self.nextminos[i]
        } else {
            MinoKind::D
        };
        preview(m)
    }

    /// The 4x4 display of the held piece, empty if none is held.
    pub fn rend_hold(&self) -> (r: Vec<Vec<Block>>)
        ensures
            r@.len() == 4,
            forall|a: int| 0 <= a < 4 ==> #[trigger] r@[a]@.len() == 4,
            forall|a: int, b: int|
                0 <= a < 4 && 0 <= b < 4 ==> #[trigger] r@[a]@[b] == preview_block(
                    match self@.hold {
                        Hold::Holding(m) => m,
                        Hold::Empty => MinoKind::D,
                    },
                    a,
                    b,
                ),
    {
        let m = match self.holdmino {
            Hold::Holding(mino) => mino,
            Hold::Empty => MinoKind::D,
        };
        preview(m)
    }
}

/// The 4x4 display of a piece in its spawn orientation.
fn preview(m: MinoKind) -> (r: Vec<Vec<Block>>)
    ensures
        r@.len() == 4,
        forall|a: int| 0 <= a < 4 ==> #[trigger] r@[a]@.len() == 4,
        forall|a: int, b: int|
            0 <= a < 4 && 0 <= b < 4 ==> #[trigger] r@[a]@[b] == preview_block(m, a, b),
{
    let mut rows: Vec<Vec<Block>> = Vec::new();
    let mut i: usize = 0;
    while i < 4
        invariant
            i <= 4,
            rows@.len() == i,
            forall|a: int| 0 <= a < i ==> #[trigger] rows@[a]@.len() == 4,
            forall|a: int, b: int|
                0 <= a < i && 0 <= b < 4 ==> #[trigger] rows@[a]@[b] == preview_block(m, a, b),
        decreases 4 - i,
    {
        let mut row: Vec<Block> = Vec::new();
        let mut j: usize = 0;
        while j < 4
            invariant
                i < 4,
                j <= 4,
                row@.len() == j,
                forall|b: int| 0 <= b < j ==> #[trigger] row@[b] == preview_block(m, i as int, b),
            decreases 4 - j,
        {
            let filled = m.shape(i, j);
            let color = if filled {
                m.color()
            } else {
                Color::Trans
            };
            row.push(Block::new(filled, color));
            j += 1;
        }
        rows.push(row);
        i += 1;
    }
    rows
}

/// Points for clearing `n` lines at once.
fn clear_points(n: usize) -> (r: u32)
    ensures
        r == clear_score(n as int),
        r <= 900,
{
    if n == 0 {
        0
    } else if n == 1 {
        100
    } else if n == 2 {
        300
    } else if n == 3 {
        600
    } else {
        900
    }
}

/// The points and lines that fixing piece `c` where it stands would add.
fn fix_gain(field: &[[Block; 12]; 22], c: &ControlledMino) -> (r: (u32, u32))
    requires
        c.mino != MinoKind::D ==> spec_in_board(c.mino, c.dir, c.pos.0 as int, c.pos.1 as int),
    ensures
        r.0 == fix_points(field_view(*field), *c),
        r.1 == fix_lines(field_view(*field), *c),
{
    if let MinoKind::D = c.mino {
        return (0, 0);
    }
    proof {
        lemma_in_board_bounds(c.mino, c.dir, c.pos.0 as int, c.pos.1 as int);
    }
    let mut below = *c;
    if below.move_mino(field, 1, 0) {
        return (0, 0);
    }
    let g = stamped(field, c);
    let n = count_full_rows(&g);
    (clear_points(n), n as u32)
}

impl Game {
    /// Marks and scores the completed rows and starts the pause.
    fn lines_clear(&mut self)
        requires
            old(self).core_wf(),
            old(self)@.clear_ready(),
            old(self)@.score + clear_score(count_full(old(self)@.field, 21)) <= u32::MAX,
            old(self)@.clearlines + count_full(old(self)@.field, 21) <= u32::MAX,
        ensures
            final(self).wf(),
            final(self)@ == old(self)@.lines_clear(),
            final(self)@.score == old(self)@.score + clear_score(count_full(old(self)@.field, 21)),
            final(self)@.clearlines == old(self)@.clearlines + count_full(old(self)@.field, 21),
            final(self).minogen == old(self).minogen,
            final(self)@.score <= old(self)@.score + 900,
            final(self)@.clearlines <= old(self)@.clearlines + 4,
            same_meta(old(self)@, final(self)@),
            final(self)@.cont == old(self)@.cont,
            final(self)@.score >= old(self)@.score,
            final(self)@.clearlines >= old(self)@.clearlines,
    {
        reveal(GameView::lines_clear);
        let ghost v0 = self@;
        let ghost f0 = v0.field;
        let mut field = self.field;
        let mut targets = self.cleartargets;
        let mut cls: usize = 0;
        let mut i: usize = 0;
        while i < 21
            invariant
                i <= 21,
                f0 == v0.field,
                v0.inv_core(),
                cls == count_full(f0, i as int),
                cls <= i,
                forall|x: int|
                    0 <= x < 22 ==> #[trigger] field_view(field)[x] == if x < i {
                        mark_clearing(f0)[x]
                    } else {
                        f0[x]
                    },
                forall|a: int|
                    0 <= a < 21 ==> #[trigger] targets@[a] == if a < i {
                        v0.cleartargets[a] || row_full(f0, a)
                    } else {
                        v0.cleartargets[a]
                    },
            decreases 21 - i,
        {
            let ghost field_before = field;
            let row = field[i];
            assert(field_view(field)[i as int] == f0[i as int]);
            assert(row@ == f0[i as int]);
            let mut full = true;
            let mut j: usize = 1;
            while j < 11
                invariant
                    1 <= j <= 11,
                    i < 21,
                    row@ == f0[i as int],
                    row@.len() == 12,
                    full <==> forall|b: int| 1 <= b < j ==> #[trigger] row@[b].filled,
                decreases 11 - j,
            {
                if !row[j].filled {
                    full = false;
                }
                j += 1;
            }
            assert(full == row_full(f0, i as int));
            if full {
                cls += 1;
                targets[i] = true;
                let mut newrow = row;
                let mut j: usize = 1;
                while j < 11
                    invariant
                        1 <= j <= 11,
                        forall|b: int|
                            0 <= b < 12 ==> #[trigger] newrow@[b] == if 1 <= b < j {
                                Block { clearing: true, ..row@[b] }
                            } else {
                                row@[b]
                            },
                    decreases 11 - j,
                {
                    let mut blk = newrow[j];
                    blk.clearing = true;
                    newrow[j] = blk;
                    j += 1;
                }
                assert(newrow@ =~= mark_clearing(f0)[i as int]);
                field[i] = newrow;
            } else {
                assert(row@ =~= mark_clearing(f0)[i as int]);
            }
            proof {
                assert forall|x: int| 0 <= x < 22 implies #[trigger] field_view(field)[x]
                    == if x < i + 1 {
                    mark_clearing(f0)[x]
                } else {
                    f0[x]
                } by {
                    if x != i {
                        assert(field[x] == field_before[x]);
                        assert(field_view(field_before)[x] == if x < i {
                            mark_clearing(f0)[x]
                        } else {
                            f0[x]
                        });
                    }
                }
            }
            i += 1;
        }
        self.field = field;
        self.cleartargets = targets;
        self.score = self.score + clear_points(cls);
        self.clearlines = self.clearlines + cls as u32;
        if cls > 0 && self.clearlines % LEVEL_UP_LINE_NUM == 0 {
            let nr = self.gravity.reciprocal * 9 / 10;
            self.gravity.reciprocal = if nr > MAX_GRAVITY_RECIP {
                nr
            } else {
                MAX_GRAVITY_RECIP
            };
        }
        self.dropping = DroppingState::Interval(0);
        proof {
            assert(field_view(self.field) =~= mark_clearing(f0)) by {
                assert forall|x: int| 0 <= x < 22 implies #[trigger] field_view(self.field)[x]
                    == mark_clearing(f0)[x] by {
                    if x == 21 {
                        assert(field_view(self.field)[x] == f0[x]);
                    }
                }
            }
            assert(self@.cleartargets =~= Seq::new(
                21,
                |a: int| v0.cleartargets[a] || row_full(f0, a),
            ));
            assert(self@ == v0.lines_clear());
            assert forall|x: int| 0 <= x < 22 implies #[trigger] self@.field[x][0].filled
                && self@.field[x][11].filled by {
                assert(f0[x][0].filled && f0[x][11].filled);
            }
            assert forall|y: int| 0 <= y < 12 implies #[trigger] self@.field[21][y].filled by {
                assert(f0[21][y].filled);
            }
            let nf = self@.field;
            assert forall|x: int| 0 <= x < 21 implies #[trigger] row_full(nf, x) == row_full(f0, x) by {
                assert forall|y: int| 1 <= y < 11 implies #[trigger] nf[x][y].filled == f0[x][y].filled by {}
                if row_full(f0, x) {
                    assert forall|y: int| 1 <= y < 11 implies #[trigger] nf[x][y].filled by {
                        assert(f0[x][y].filled);
                    }
                }
                if row_full(nf, x) {
                    assert forall|y: int| 1 <= y < 11 implies #[trigger] f0[x][y].filled by {
                        assert(nf[x][y].filled);
                    }
                }
            }
            assert forall|x: int, y: int| 0 <= x < 22 && 0 <= y < 12 implies #[trigger] nf[x][y].clearing
                == (x < 21 && 1 <= y < 11 && self@.cleartargets[x]) by {
                assert(f0[x][y].clearing == (x < 21 && 1 <= y < 11 && v0.cleartargets[x]));
                if x < 21 && v0.cleartargets[x] {
                    assert(row_full(f0, x));
                }
            }
            assert forall|x: int| 0 <= x < 21 implies #[trigger] self@.cleartargets[x] == row_full(
                self@.field,
                x,
            ) by {
                if v0.cleartargets[x] {
                    assert(row_full(f0, x));
                }
            }
            assert(clear_score(cls as int) >= 100 * cls);
        }
    }
}

impl Game {
    /// Removes the rows marked for clearing; the rows above move down and
    /// empty rows come in at the top.
    fn lines_close(&mut self)
        requires
            old(self).wf(),
            old(self)@.dropping != DroppingState::Dropping,
        ensures
            final(self).wf(),
            forall|x: int| 0 <= x < 21 ==> !#[trigger] row_full(final(self)@.field, x),
            final(self)@ == old(self)@.lines_close(),
            final(self).minogen == old(self).minogen,
            same_meta(old(self)@, final(self)@),
            final(self)@.score == old(self)@.score,
            final(self)@.clearlines == old(self)@.clearlines,
    {
        reveal(GameView::lines_close);
        let ghost v0 = self@;
        let ghost f0 = v0.field;
        let ghost t0 = v0.cleartargets;
        let mut field = self.field;
        let targets = self.cleartargets;
        let empty = Block::new(false, Color::Trans);
        let wall = Block::new(true, Color::Trans);
        let mut new_line: [Block; 12] = [empty; 12];
        new_line[0] = wall;
        new_line[11] = wall;
        assert(new_line@ =~= empty_row());
        let mut i: usize = 0;
        while i < 21
            invariant
                i <= 21,
                f0 == v0.field,
                t0 == v0.cleartargets,
                f0.len() == 22,
                targets@ == t0,
                new_line@ == empty_row(),
                closed_prefix(f0, t0, i as int).len() == i,
                forall|x: int|
                    0 <= x < i ==> #[trigger] field_view(field)[x] == closed_prefix(f0, t0, i as int)[x],
                forall|x: int| i <= x < 22 ==> #[trigger] field_view(field)[x] == f0[x],
            decreases 21 - i,
        {
            let ghost before = field;
            proof {
                lemma_kept_len(f0, t0, i as int);
                lemma_kept_len(f0, t0, i + 1);
            }
            let ghost c = count_targets(t0, i as int);
            if targets[i] {
                let mut j: usize = i;
                while j > 0
                    invariant
                        j <= i,
                        i < 21,
                        forall|x: int| 0 <= x <= j ==> #[trigger] field[x] == before[x],
                        forall|x: int| j < x <= i ==> #[trigger] field[x] == before[x - 1],
                        forall|x: int| i < x < 22 ==> #[trigger] field[x] == before[x],
                    decreases j,
                {
                    field[j] = field[j - 1];
                    j -= 1;
                }
                field[0] = new_line;
                proof {
                    assert forall|x: int| 0 <= x < i + 1 implies #[trigger] field_view(field)[x]
                        == closed_prefix(f0, t0, i + 1)[x] by {
                        if x == 0 {
                            assert(closed_prefix(f0, t0, i + 1)[0] == empty_row());
                        } else {
                            assert(field[x] == before[x - 1]);
                            assert(field_view(before)[x - 1] == closed_prefix(f0, t0, i as int)[x - 1]);
                            assert(kept_rows(f0, t0, i + 1) == kept_rows(f0, t0, i as int));
                            if x - 1 < c {
                                assert(closed_prefix(f0, t0, i as int)[x - 1] == empty_row());
                                assert(closed_prefix(f0, t0, i + 1)[x] == empty_row());
                            } else {
                                assert(closed_prefix(f0, t0, i as int)[x - 1] == kept_rows(
                                    f0,
                                    t0,
                                    i as int,
                                )[x - 1 - c]);
                                assert(closed_prefix(f0, t0, i + 1)[x] == kept_rows(
                                    f0,
                                    t0,
                                    i + 1,
                                )[x - (c + 1)]);
                            }
                        }
                    }
                    assert forall|x: int| i + 1 <= x < 22 implies #[trigger] field_view(field)[x]
                        == f0[x] by {
                        assert(field[x] == before[x]);
                        assert(field_view(before)[x] == f0[x]);
                    }
                }
            } else {
                proof {
                    assert forall|x: int| 0 <= x < i + 1 implies #[trigger] field_view(field)[x]
                        == closed_prefix(f0, t0, i + 1)[x] by {
                        assert(kept_rows(f0, t0, i + 1) == kept_rows(f0, t0, i as int).push(
                            f0[i as int],
                        ));
                        if x < i {
                            assert(field_view(before)[x] == closed_prefix(f0, t0, i as int)[x]);
                            if x < c {
                            } else {
                                assert(closed_prefix(f0, t0, i as int)[x] == kept_rows(
                                    f0,
                                    t0,
                                    i as int,
                                )[x - c]);
                            }
                        } else {
                            assert(field_view(before)[x] == f0[x]);
                            assert(closed_prefix(f0, t0, i + 1)[x] == kept_rows(f0, t0, i + 1)[x
                                - c]);
                        }
                    }
                }
            }
            i += 1;
        }
        self.field = field;
        self.cleartargets = [false; 21];
        proof {
            lemma_kept_len(f0, t0, 21);
            assert(field_view(self.field) =~= closed_field(f0, t0)) by {
                assert forall|x: int| 0 <= x < 22 implies #[trigger] field_view(self.field)[x]
                    == closed_field(f0, t0)[x] by {
                    if x < 21 {
                        assert(closed_field(f0, t0)[x] == closed_prefix(f0, t0, 21)[x]);
                    }
                }
            }
            assert(self@.cleartargets =~= Seq::new(21, |a: int| false));
            assert(self@ == v0.lines_close());
            lemma_kept_from(f0, t0, 21);
            assert forall|x: int| 0 <= x < 22 implies #[trigger] self@.field[x][0].filled
                && self@.field[x][11].filled by {
                if x < 21 {
                    let c = count_targets(t0, 21);
                    assert(self@.field[x] == closed_prefix(f0, t0, 21)[x]);
                    if x < c {
                        assert(closed_prefix(f0, t0, 21)[x] == empty_row());
                    } else {
                        let k = kept_rows(f0, t0, 21);
                        assert(closed_prefix(f0, t0, 21)[x] == k[x - c]);
                        assert(0 <= x - c < k.len());
                        let i = choose|i: int| 0 <= i < 21 && !t0[i] && #[trigger] k[x - c] == f0[i];
                        assert(walls_intact(f0));
                        assert(f0[i][0].filled);
                        assert(f0[i][11].filled);
                    }
                }
            }
            let nf = self@.field;
            assert forall|x: int| 0 <= x < 22 implies (forall|y: int| 0 <= y < 12 ==> !(
            #[trigger] nf[x][y]).clearing) && (x < 21 ==> !row_full(nf, x)) by {
                if x < 21 {
                    let c = count_targets(t0, 21);
                    assert(nf[x] == closed_prefix(f0, t0, 21)[x]);
                    if x < c {
                        assert(closed_prefix(f0, t0, 21)[x] == empty_row());
                        assert(!nf[x][1].filled);
                    } else {
                        let k = kept_rows(f0, t0, 21);
                        assert(closed_prefix(f0, t0, 21)[x] == k[x - c]);
                        let i = choose|i: int| 0 <= i < 21 && !t0[i] && #[trigger] k[x - c] == f0[i];
                        assert(!row_full(f0, i));
                        assert forall|y: int| 0 <= y < 12 implies !(#[trigger] nf[x][y]).clearing by {
                            assert(f0[i][y].clearing == (i < 21 && 1 <= y < 11 && t0[i]));
                        }
                    }
                } else {
                    assert forall|y: int| 0 <= y < 12 implies !(#[trigger] nf[x][y]).clearing by {
                        assert(f0[21][y].clearing == (21 < 21 && 1 <= y < 11 && t0[21]));
                    }
                }
            }
            assert forall|x: int, y: int| 0 <= x < 22 && 0 <= y < 12 implies #[trigger] nf[x][y].clearing
                == (x < 21 && 1 <= y < 11 && self@.cleartargets[x]) by {}
            assert forall|x: int| 0 <= x < 21 implies #[trigger] self@.cleartargets[x] == row_full(nf, x) by {}
            assert forall|x: int| 0 <= x < 22 implies #[trigger] self@.field[x].len() == 12 by {
                if x < 21 {
                    assert(self@.field[x] == field[x]@);
                }
            }
        }
    }
}

/// Two states agree on the frame counters, the hold slot, the queue and the
/// randomiser.
pub open spec fn same_meta(a: GameView, b: GameView) -> bool {
    &&& a.total_frames == b.total_frames
    &&& a.current_frames == b.current_frames
    &&& a.hold == b.hold
    &&& a.holdflag == b.holdflag
    &&& a.next == b.next
    &&& a.bag == b.bag
}

/// The rows completed by fixing piece `c` where it stands: none if it can
/// still fall.
pub open spec fn fix_lines(field: Seq<Seq<Block>>, c: ControlledMino) -> int {
    if c.shifted(1, 0).fits(field) {
        0
    } else {
        count_full(stamp(field, c), 21)
    }
}

/// The points scored by fixing piece `c` where it stands.
pub open spec fn fix_points(field: Seq<Seq<Block>>, c: ControlledMino) -> int {
    clear_score(fix_lines(field, c))
}

impl GameView {
    /// Fixing the falling piece where it stands keeps the score and the line
    /// count within `u32`.
    pub open spec fn fix_room(self) -> bool {
        &&& self.score + fix_points(self.field, self.cont) <= u32::MAX
        &&& self.clearlines + fix_lines(self.field, self.cont) <= u32::MAX
    }
}


impl Game {
    /// Fixes the piece to the board if it cannot fall, then clears lines.
    fn fix_mino(&mut self)
        requires
            old(self).wf(),
            old(self)@.cont.mino == MinoKind::D ==> old(self)@.cont.pos.0 < i32::MAX,
            old(self)@.fix_room(),
            old(self)@.dropping == DroppingState::Dropping || old(self)@.cont.mino == MinoKind::D,
        ensures
            final(self).wf(),
            final(self)@ == old(self)@.fix_mino(),
            final(self)@.score == old(self)@.score + fix_points(old(self)@.field, old(self)@.cont),
            final(self)@.clearlines == old(self)@.clearlines + fix_lines(
                old(self)@.field,
                old(self)@.cont,
            ),
            final(self).minogen == old(self).minogen,
            final(self)@.score <= old(self)@.score + 900,
            final(self)@.clearlines <= old(self)@.clearlines + 4,
            !old(self)@.cont.shifted(1, 0).fits(old(self)@.field) ==> final(self)@.cont == spawned(
                MinoKind::D,
            ),
            same_meta(old(self)@, final(self)@),
            final(self)@.cont.mino == MinoKind::D ==> (final(self)@.cont.pos == (0i32, 4i32)
                || final(self)@.cont.pos == old(self)@.cont.pos),
            final(self)@.score >= old(self)@.score,
            final(self)@.clearlines >= old(self)@.clearlines,
    {
        reveal(GameView::fix_mino);
        let ghost v0 = self@;
        let ghost f0 = v0.field;
        let ghost c0 = v0.cont;
        if self.contmino.move_mino(&self.field, 1, 0) {
            self.contmino.move_mino(&self.field, -1, 0);
            proof {
                let c1 = c0.try_move(f0, 1, 0);
                if c1.mino != MinoKind::D {
                    if c1.shifted(-1, 0).fits(f0) {
                        lemma_in_board_bounds(c1.mino, c1.dir, c1.pos.0 - 1, c1.pos.1 as int);
                    } else {
                        lemma_in_board_bounds(c1.mino, c1.dir, c1.pos.0 as int, c1.pos.1 as int);
                    }
                }
                assert(self@ == v0.fix_mino());
            }
            return;
        }
        proof {
            assert(c0.mino != MinoKind::D) by {
                if c0.mino == MinoKind::D {
                    assert(c0.shifted(1, 0).fits(f0));
                }
            }
        }
        let field = stamped(&self.field, &self.contmino);
        self.field = field;
        self.contmino = ControlledMino::new(MinoKind::D);
        self.gravity.fix_flag = false;
        proof {
            assert forall|p: int| 0 <= p < 22 implies #[trigger] self@.field[p].len() == 12 by {}
            assert forall|p: int| 0 <= p < 22 implies #[trigger] self@.field[p][0].filled
                && self@.field[p][11].filled by {
                assert(f0[p][0].filled && f0[p][11].filled);
                assert(stamp(f0, c0)[p][0] == field[p][0]);
            }
            assert forall|q: int| 0 <= q < 12 implies #[trigger] self@.field[21][q].filled by {
                assert(f0[21][q].filled);
            }
            assert(c0.mino != MinoKind::D) by {
                if c0.mino == MinoKind::D {
                    assert(c0.shifted(1, 0).fits(f0));
                }
            }
            assert(v0.dropping == DroppingState::Dropping);
            assert forall|p: int| 0 <= p < 21 implies !#[trigger] row_full(f0, p) by {
                assert(!v0.cleartargets[p]);
            }
            lemma_stamp_full_rows(f0, c0);
            lemma_count_full_window(self@.field, 21, c0.pos.0 as int);
            assert forall|p: int, q: int| 0 <= p < 22 && 0 <= q < 12 implies #[trigger] self@.field[p][q].clearing
                == (p < 21 && 1 <= q < 11 && self@.cleartargets[p]) by {
                assert(f0[p][q].clearing == (p < 21 && 1 <= q < 11 && v0.cleartargets[p]));
                assert(stamp(f0, c0)[p][q] == field[p][q]);
                if p < 21 {
                    assert(!v0.cleartargets[p]);
                }
            }
            assert forall|p: int| 0 <= p < 21 && #[trigger] self@.cleartargets[p] implies row_full(
                self@.field,
                p,
            ) by {
                assert(!v0.cleartargets[p]);
            }
        }
        self.lines_clear();
    }
}

impl Game {
    /// Moves the piece one row down if it fits there, scoring a point; says
    /// whether it moved.
    fn mino_down_with_score(&mut self) -> (r: bool)
        requires
            old(self).wf(),
            old(self)@.cont.mino == MinoKind::D ==> old(self)@.cont.pos.0 < i32::MAX,
            old(self)@.cont.shifted(1, 0).fits(old(self)@.field) ==> old(self)@.score < u32::MAX,
        ensures
            final(self).wf(),
            final(self)@ == old(self)@.soft_drop(),
            final(self).minogen == old(self).minogen,
            r == old(self)@.cont.shifted(1, 0).fits(old(self)@.field),
            final(self)@ == if r {
                GameView {
                    cont: old(self)@.cont.shifted(1, 0),
                    score: (old(self)@.score + 1) as u32,
                    ..old(self)@
                }
            } else {
                old(self)@
            },
    {
        reveal(GameView::soft_drop);
        let ghost v0 = self@;
        let res = self.contmino.move_mino(&self.field, 1, 0);
        if res {
            self.score += 1;
            proof {
                if v0.cont.mino != MinoKind::D {
                    lemma_in_board_bounds(
                        v0.cont.mino,
                        v0.cont.dir,
                        v0.cont.pos.0 + 1,
                        v0.cont.pos.1 as int,
                    );
                }
            }
        }
        res
    }

    /// Drops the piece as far as it falls, scoring a point per row.
    fn hard_drop(&mut self)
        requires
            old(self).wf(),
            old(self)@.cont.mino != MinoKind::D,
            old(self)@.score + drop_distance(old(self)@.field, old(self)@.cont) <= u32::MAX,
        ensures
            final(self).wf(),
            final(self)@ == old(self)@.hard_drop(),
            final(self)@.score == old(self)@.score + drop_distance(old(self)@.field, old(self)@.cont),
            final(self).minogen == old(self).minogen,
            final(self)@.score <= old(self)@.score + 24,
            !final(self)@.cont.shifted(1, 0).fits(final(self)@.field),
            final(self)@.field == old(self)@.field,
            final(self)@.dropping == old(self)@.dropping,
            same_meta(old(self)@, final(self)@),
            final(self)@.clearlines == old(self)@.clearlines,
            final(self)@.cont.mino == old(self)@.cont.mino,
            final(self)@.score >= old(self)@.score,
            final(self)@.clearlines >= old(self)@.clearlines,
    {
        reveal(GameView::hard_drop);
        let ghost v0 = self@;
        let ghost c0 = v0.cont;
        proof {
            lemma_in_board_bounds(c0.mino, c0.dir, c0.pos.0 as int, c0.pos.1 as int);
            lemma_lands(v0.field, c0);
        }
        let mut moving = true;
        while moving
            invariant
                self.wf(),
                self.minogen == old(self).minogen,
                v0 == old(self)@,
                c0 == v0.cont,
                c0.mino != MinoKind::D,
                -3 <= c0.pos.0 <= 21,
                v0.score + drop_distance(v0.field, c0) <= u32::MAX,
                lands_after(v0.field, c0, drop_distance(v0.field, c0)),
                self@ == v0.with_cont(c0.shifted(self@.cont.pos.0 - c0.pos.0, 0)).hard_drop_part(
                    self@.cont.pos.0 - c0.pos.0,
                ),
                c0.pos.0 <= self@.cont.pos.0 <= 21,
                forall|m: int|
                    1 <= m <= self@.cont.pos.0 - c0.pos.0 ==> #[trigger] c0.shifted(m, 0).fits(
                        v0.field,
                    ),
                !moving ==> !c0.shifted(self@.cont.pos.0 - c0.pos.0 + 1, 0).fits(v0.field),
            decreases 22 - self@.cont.pos.0, (if moving {
                1int
            } else {
                0int
            }),
        {
            let ghost before = self@;
            proof {
                let n = before.cont.pos.0 - c0.pos.0;
                let d = drop_distance(v0.field, c0);
                assert(before.cont.shifted(1, 0) == c0.shifted(n + 1, 0));
                if c0.shifted(n + 1, 0).fits(v0.field) && d <= n {
                    assert(c0.shifted(d + 1, 0).fits(v0.field));
                }
            }
            moving = self.mino_down_with_score();
            proof {
                let n = before.cont.pos.0 - c0.pos.0;
                assert(before.cont == c0.shifted(n, 0));
                assert(c0.shifted(n, 0).shifted(1, 0) == c0.shifted(n + 1, 0));
                if moving {
                    lemma_in_board_bounds(
                        self@.cont.mino,
                        self@.cont.dir,
                        self@.cont.pos.0 as int,
                        self@.cont.pos.1 as int,
                    );
                }
            }
        }
        proof {
            lemma_drop_distance(v0.field, c0, self@.cont.pos.0 - c0.pos.0);
        }
    }
}

impl GameView {
    /// The state after the piece has fallen `n` rows, a point per row.
    pub open spec fn hard_drop_part(self, n: int) -> GameView {
        GameView { score: (self.score + n) as u32, ..self }
    }
}

impl Game {
    /// Starts piece `mino` at the spawn point; says whether it fits there.
    fn drop_start(&mut self, mino: MinoKind) -> (r: bool)
        ensures
            final(self)@ == (GameView { cont: spawned(mino), current_frames: 0, ..old(self)@ }),
            final(self).minogen == old(self).minogen,
            r == spawned(mino).fits(old(self)@.field),
    {
        self.contmino = ControlledMino::new(mino);
        self.current_frames = 0;
        proof {
            lemma_spawn_in_board(mino);
        }
        self.contmino.pos_verify(&self.field)
    }

    /// Swaps the falling piece with the held one, or, if none is held, with
    /// the next in the queue (dealing a new piece into the queue).
    fn hold_swap(&mut self)
        requires
            old(self).wf(),
            old(self)@.hold == Hold::Empty ==> old(self)@.bag.next_round() <= u32::MAX,
        ensures
            final(self).wf(),
            final(self)@ == old(self)@.hold_swap(final(self)@.next[0]),
            old(self)@.hold == Hold::Empty ==> old(self)@.bag.can_deal(
                spec_index_of_kind(final(self)@.next[0]),
            ),
            final(self)@.current_frames == 0,
            final(self)@.dropping == old(self)@.dropping,
            final(self)@.score == old(self)@.score,
            final(self)@.clearlines == old(self)@.clearlines,
            final(self)@.total_frames == old(self)@.total_frames,
    {
        reveal(GameView::hold_swap);
        let ghost v0 = self@;
        let mino = match self.holdmino {
            Hold::Holding(mino) => mino,
            Hold::Empty => {
                let k = self.minogen.generate();
                self.nextminos.push_front(k);
                let m = self.nextminos.pop_back().unwrap();
                proof {
                    assert(self.nextminos@ =~= seq![k] + v0.next.drop_last());
                }
                m
            },
        };
        self.holdmino = Hold::Holding(self.contmino.mino);
        let fits = self.drop_start(mino);
        self.game_over = !fits;
        self.holdflag = true;
        proof {
            lemma_spawn_in_board(mino);
            assert(self@ == v0.hold_swap(self@.next[0]));
        }
    }

    /// One step of gravity.
    fn gravity_step(&mut self)
        requires
            old(self)@.dropping == DroppingState::Dropping || old(self)@.cont.mino == MinoKind::D
                || old(self)@.current_frames <= SAFTY_FRAMES,
            old(self).wf(),
            old(self)@.cont.mino == MinoKind::D ==> old(self)@.cont.pos.0 <= i32::MAX - 2,
            old(self)@.current_frames > SAFTY_FRAMES && (old(self)@.gravity.fix_flag || old(
                self,
            )@.current_frames > old(self)@.gravity.drop_limit) ==> old(self)@.fix_room(),
        ensures
            final(self).wf(),
            final(self)@ == old(self)@.gravity_step(),
            final(self).minogen == old(self).minogen,
            final(self)@.score <= old(self)@.score + 900,
            final(self)@.clearlines <= old(self)@.clearlines + 4,
            old(self)@.cont.mino == MinoKind::D || old(self)@.current_frames <= SAFTY_FRAMES ==> (
            final(self)@.score == old(self)@.score && final(self)@.clearlines == old(
                self,
            )@.clearlines && final(self)@.dropping == old(self)@.dropping),
            same_meta(old(self)@, final(self)@),
            final(self)@.score >= old(self)@.score,
            final(self)@.clearlines >= old(self)@.clearlines,
    {
        reveal(GameView::gravity_step);
        let moved = self.contmino.move_mino(&self.field, 1, 0);
        let fix_cond = self.current_frames > SAFTY_FRAMES && (self.gravity.fix_flag
            || self.current_frames > self.gravity.drop_limit);
        if fix_cond && !moved {
            self.fix_mino();
        } else if self.contmino.move_mino(&self.field, 1, 0) {
            self.contmino.move_mino(&self.field, -1, 0);
            proof {
                let c = self@.cont;
                if c.mino != MinoKind::D {
                    lemma_in_board_bounds(c.mino, c.dir, c.pos.0 as int, c.pos.1 as int);
                }
            }
        } else {
            self.gravity.fix_flag = true;
            proof {
                let c = self@.cont;
                if c.mino != MinoKind::D {
                    lemma_in_board_bounds(c.mino, c.dir, c.pos.0 as int, c.pos.1 as int);
                }
            }
        }
    }

    /// Ends the pause after a clear: removes the lines and starts the next
    /// piece, dealing a new one into the queue.
    fn interval_end(&mut self)
        requires
            old(self)@.dropping != DroppingState::Dropping,
            old(self).wf(),
            old(self)@.bag.next_round() <= u32::MAX,
        ensures
            final(self).wf(),
            final(self)@ == old(self)@.interval_end(final(self)@.next[0]),
            old(self)@.bag.can_deal(spec_index_of_kind(final(self)@.next[0])),
            final(self)@.score == old(self)@.score,
            final(self)@.clearlines == old(self)@.clearlines,
            final(self)@.total_frames == old(self)@.total_frames,
    {
        reveal(GameView::interval_end);
        let ghost v0 = self@;
        self.lines_close();
        let ghost v1 = self@;
        let mino = self.nextminos.pop_back().unwrap();
        let fits = self.drop_start(mino);
        self.game_over = !fits;
        self.holdflag = false;
        let k = self.minogen.generate();
        self.nextminos.push_front(k);
        self.dropping = DroppingState::Dropping;
        proof {
            lemma_spawn_in_board(mino);
            assert(self.nextminos@ =~= seq![k] + v1.next.drop_last());
            assert(self@ == v0.interval_end(k));
        }
    }
}

/// Changing only the falling piece (for a real piece, to a place inside the
/// board), the resting mark, and raising the score keeps the invariant.
proof fn lemma_inv_frame(a: GameView, b: GameView)
    requires
        a.inv(),
        b.field == a.field,
        b.cleartargets == a.cleartargets,
        b.dropping == a.dropping,
        b.score >= a.score,
        b.clearlines == a.clearlines,
        b.next == a.next,
        b.bag == a.bag,
        b.gravity.reciprocal == a.gravity.reciprocal,
        b.gravity.drop_limit == a.gravity.drop_limit,
        b.cont.mino != MinoKind::D ==> spec_in_board(
            b.cont.mino,
            b.cont.dir,
            b.cont.pos.0 as int,
            b.cont.pos.1 as int,
        ),
    ensures
        b.inv(),
{
    if b.cont.mino != MinoKind::D {
        lemma_in_board_bounds(b.cont.mino, b.cont.dir, b.cont.pos.0 as int, b.cont.pos.1 as int);
    }
}

impl GameView {
    /// Whether a step with these keys may fix a piece: a hard drop, or a
    /// gravity tick on a real piece past the first 90 frames (with no swap
    /// from the hold slot this frame).
    pub open spec fn fix_possible(self, keys: [bool; 7]) -> bool {
        ||| keys[2]
        ||| self.cont.mino != MinoKind::D && self.current_frames > SAFTY_FRAMES && !(keys[6]
            && !self.holdflag) && self.current_frames % self.gravity.reciprocal == 0
    }

    /// A hard drop and the fix that follows keep the score and the line
    /// count within `u32`.
    pub open spec fn hard_drop_room(self) -> bool {
        &&& self.score + drop_distance(self.field, self.cont) <= u32::MAX
        &&& self.hard_drop().fix_room()
    }

    /// A soft drop keeps the score within `u32`.
    pub open spec fn soft_room(self) -> bool {
        self.cont.shifted(1, 0).fits(self.field) ==> self.score < u32::MAX
    }

    /// Gravity acts this frame, and the piece has rested or fallen long
    /// enough to be fixed if it cannot fall.
    pub open spec fn gravity_may_fix(self) -> bool {
        &&& self.current_frames % self.gravity.reciprocal == 0
        &&& self.current_frames > SAFTY_FRAMES
        &&& (self.gravity.fix_flag || self.current_frames > self.gravity.drop_limit)
    }

    /// The points and lines of a step with these keys stay within `u32`: a
    /// hard drop with the fix that follows, a soft drop's point, and a fix
    /// by gravity (which cannot follow a swap from the hold slot).
    pub open spec fn step_room(self, keys: [bool; 7]) -> bool {
        let v1 = self.spin_phase(keys);
        let v5 = v1.move_phase(keys);
        &&& keys[2] ==> v1.hard_drop_room()
        &&& keys[3] ==> v1.drop_part(keys).soft_room()
        &&& !(keys[6] && !self.holdflag) && v5.gravity_may_fix() ==> v5.fix_room()
    }

    /// A step with these keys stays within the machine's integers and ends:
    /// a hard drop does not meet the empty piece (which would fall forever);
    /// the randomiser's next round, the frame counters, the score, the line
    /// count and the empty piece's position stay within their types.
    pub open spec fn clock_ready(self, keys: [bool; 7]) -> bool {
        &&& self.deals(keys) ==> self.bag.next_round() <= u32::MAX
        &&& self.dropping == DroppingState::Dropping ==> {
            &&& self.total_frames < u32::MAX
            &&& !(keys[6] && !self.holdflag) ==> self.current_frames < u32::MAX
            &&& keys[2] ==> self.cont.mino != MinoKind::D
            &&& self.step_room(keys)
            &&& self.cont.mino == MinoKind::D ==> {
                &&& keys[3] ==> self.cont.pos.0 < i32::MAX
                &&& !keys[3] && keys[4] ==> self.cont.pos.1 < i32::MAX
                &&& !keys[3] && !keys[4] && keys[5] ==> self.cont.pos.1 > i32::MIN
                &&& !(keys[6] && !self.holdflag) && self.current_frames % self.gravity.reciprocal
                    == 0 ==> self.cont.pos.0 + (if keys[3] {
                    1int
                } else {
                    0int
                }) <= i32::MAX - 2
            }
        }
    }
}

impl Game {
    /// Whether [`Game::clock`] may be called with these keys (see
    /// [`GameView::clock_ready`]).
    pub fn can_clock(&self, keys: [bool; 7]) -> (r: bool)
        requires
            self.wf(),
        ensures
            r == self@.clock_ready(keys),
    {
        let deals = match self.dropping {
            DroppingState::Interval(f) => f > INTERVAL,
            DroppingState::Dropping => keys[6] && !self.holdflag && match self.holdmino {
                Hold::Empty => true,
                Hold::Holding(_) => false,
            },
        };
        if deals && !self.minogen.can_deal_next() {
            return false;
        }
        match self.dropping {
            DroppingState::Interval(_) => true,
            DroppingState::Dropping => {
                let (x, y) = self.contmino.pos;
                let swap = keys[6] && !self.holdflag;
                let empty = match self.contmino.mino {
                    MinoKind::D => true,
                    _ => false,
                };
                let tick = self.current_frames % self.gravity.reciprocal == 0;
                let room = if keys[3] {
                    x < i32::MAX && (swap || !tick || x < i32::MAX - 2)
                } else if keys[4] {
                    y < i32::MAX && (swap || !tick || x <= i32::MAX - 2)
                } else if keys[5] {
                    y > i32::MIN && (swap || !tick || x <= i32::MAX - 2)
                } else {
                    swap || !tick || x <= i32::MAX - 2
                };
                if self.total_frames < u32::MAX && (swap || self.current_frames < u32::MAX) && (
                !keys[2] || !empty) && (!empty || room) {
                    self.step_room_check(keys)
                } else {
                    false
                }
            },
        }
    }

    /// Whether the points and lines of a step with these keys stay within
    /// `u32` (see [`GameView::step_room`]), found by playing the step out on
    /// a copy of the falling piece.
    #[verifier::rlimit(60)]
    fn step_room_check(&self, keys: [bool; 7]) -> (r: bool)
        requires
            self.wf(),
            self@.dropping == DroppingState::Dropping,
            keys[2] ==> self@.cont.mino != MinoKind::D,
            self@.cont.mino == MinoKind::D ==> {
                &&& keys[3] ==> self@.cont.pos.0 < i32::MAX
                &&& !keys[3] && keys[4] ==> self@.cont.pos.1 < i32::MAX
                &&& !keys[3] && !keys[4] && keys[5] ==> self@.cont.pos.1 > i32::MIN
            },
        ensures
            r == self@.step_room(keys),
    {
        let ghost v0 = self@;
        let ghost f0 = v0.field;
        let ghost v1 = v0.spin_phase(keys);
        let max: u64 = 0xffff_ffff;
        let mut c = self.contmino;
        proof {
            if c.mino != MinoKind::D {
                lemma_in_board_bounds(c.mino, c.dir, c.pos.0 as int, c.pos.1 as int);
            }
            lemma_spun(c, f0);
            lemma_spin_room(c, f0);
        }
        if keys[0] {
            c.spin_right(&self.field);
        } else if keys[1] {
            c.spin_left(&self.field);
        }
        let flag = if keys[0] || keys[1] {
            false
        } else {
            self.gravity.fix_flag
        };
        proof {
            assert(c == v1.cont);
            if c.mino != MinoKind::D && c != v0.cont {
                lemma_fits_in_board(f0, c);
            }
            if c.mino != MinoKind::D {
                lemma_in_board_bounds(c.mino, c.dir, c.pos.0 as int, c.pos.1 as int);
            }
        }
        let score: u64 = self.score as u64;
        let lines: u64 = self.clearlines as u64;
        if keys[2] {
            let n = drop_rows(&self.field, &c);
            let s1 = score + n as u64;
            if s1 > max {
                return false;
            }
            let landed = ControlledMino { pos: (c.pos.0 + n, c.pos.1), ..c };
            proof {
                assert(landed == c.shifted(n as int, 0));
                if n > 0 {
                    assert(c.shifted(n as int, 0).fits(f0));
                    lemma_fits_in_board(f0, landed);
                }
                reveal(GameView::hard_drop);
            }
            let (p, l) = fix_gain(&self.field, &landed);
            if s1 + p as u64 > max || lines + l as u64 > max {
                return false;
            }
            proof {
                lemma_hard_drop_fixes(v1);
                reveal(GameView::soft_drop);
                assert(spawned(MinoKind::D).shifted(1, 0).fits(v1.drop_part(keys).field));
            }
            if keys[3] && s1 + p as u64 >= max {
                return false;
            }
            proof {
                let v5 = v1.move_phase(keys);
                assert(v5.cont.mino == MinoKind::D);
                assert(v5.cont.shifted(1, 0).fits(v5.field));
            }
            return true;
        }
        let mut s2 = score;
        if keys[3] {
            if c.move_mino(&self.field, 1, 0) {
                if s2 >= max {
                    return false;
                }
                s2 = s2 + 1;
            }
        } else if keys[4] {
            c.move_mino(&self.field, 0, 1);
        } else if keys[5] {
            c.move_mino(&self.field, 0, -1);
        }
        proof {
            reveal(GameView::soft_drop);
            let v5 = v1.move_phase(keys);
            assert(v5.cont == c);
            assert(v5.score == s2);
            if c.mino != MinoKind::D && c != v1.cont {
                lemma_fits_in_board(f0, c);
            }
        }
        let swap = keys[6] && !self.holdflag;
        let cf = self.current_frames;
        let may = cf % self.gravity.reciprocal == 0 && cf > SAFTY_FRAMES && (flag || cf
            > self.gravity.drop_limit);
        if swap || !may {
            return true;
        }
        let (p, l) = fix_gain(&self.field, &c);
        s2 + p as u64 <= max && lines + l as u64 <= max
    }

    /// The turn keys.
    fn spin_phase(&mut self, keys: [bool; 7])
        requires
            old(self).wf(),
        ensures
            final(self).wf(),
            final(self)@ == old(self)@.spin_phase(keys),
            final(self).minogen == old(self).minogen,
            old(self)@.cont.mino == MinoKind::D ==> final(self)@.cont.pos == old(self)@.cont.pos,
            final(self)@.cont.mino == old(self)@.cont.mino,
            same_meta(old(self)@, final(self)@),
            final(self)@.score == old(self)@.score,
            final(self)@.clearlines == old(self)@.clearlines,
            final(self)@.dropping == old(self)@.dropping,
            final(self)@.gravity.reciprocal == old(self)@.gravity.reciprocal,
    {
        let ghost f0 = self@.field;
        if keys[0] || keys[1] {
            self.gravity.fix_flag = false;
        }
        let ghost v1 = self@;
        proof {
            lemma_spun(v1.cont, f0);
            lemma_spin_room(v1.cont, f0);
        }
        if keys[0] {
            self.contmino.spin_right(&self.field);
        } else if keys[1] {
            self.contmino.spin_left(&self.field);
        }
        proof {
            let c = self@.cont;
            if c.mino != MinoKind::D && c != v1.cont {
                lemma_fits_in_board(f0, c);
            }
            lemma_inv_frame(old(self)@, self@);
        }
    }

    /// The drop and move keys.
    fn move_phase(&mut self, keys: [bool; 7])
        requires
            old(self)@.dropping == DroppingState::Dropping,
            old(self).wf(),
            keys[2] ==> old(self)@.cont.mino != MinoKind::D,
            keys[2] ==> old(self)@.hard_drop_room(),
            keys[3] ==> old(self)@.drop_part(keys).soft_room(),
            old(self)@.cont.mino == MinoKind::D ==> {
                &&& keys[3] ==> old(self)@.cont.pos.0 < i32::MAX
                &&& !keys[3] && keys[4] ==> old(self)@.cont.pos.1 < i32::MAX
                &&& !keys[3] && !keys[4] && keys[5] ==> old(self)@.cont.pos.1 > i32::MIN
            },
        ensures
            final(self).wf(),
            final(self)@ == old(self)@.move_phase(keys),
            final(self).minogen == old(self).minogen,
            final(self)@.score <= old(self)@.score + 925,
            final(self)@.clearlines <= old(self)@.clearlines + 4,
            keys[2] ==> final(self)@.cont.mino == MinoKind::D && 0 <= final(self)@.cont.pos.0 <= 1,
            !keys[2] ==> final(self)@.cont.mino == old(self)@.cont.mino,
            !keys[2] ==> final(self)@.gravity.reciprocal == old(self)@.gravity.reciprocal,
            old(self)@.cont.mino == MinoKind::D && !keys[2] ==> final(self)@.cont.pos.0 == old(
                self,
            )@.cont.pos.0 + if keys[3] {
                1int
            } else {
                0int
            },
            !keys[2] ==> final(self)@.dropping == old(self)@.dropping,
            !keys[2] ==> final(self)@.score <= old(self)@.score + 1,
            !keys[2] ==> final(self)@.clearlines == old(self)@.clearlines,
            same_meta(old(self)@, final(self)@),
            final(self)@.score >= old(self)@.score,
            final(self)@.clearlines >= old(self)@.clearlines,
    {
        if keys[2] {
            self.hard_drop();
            self.fix_mino();
        }
        let ghost mid = self@;
        if keys[3] {
            self.mino_down_with_score();
        } else if keys[4] {
            self.contmino.move_mino(&self.field, 0, 1);
        } else if keys[5] {
            self.contmino.move_mino(&self.field, 0, -1);
        }
        proof {
            let c = self@.cont;
            if c.mino != MinoKind::D && c != mid.cont {
                lemma_fits_in_board(mid.field, c);
            }
            lemma_inv_frame(mid, self@);
        }
    }

    /// The hold key.
    fn hold_phase(&mut self, keys: [bool; 7])
        requires
            old(self).wf(),
            keys[6] && !old(self)@.holdflag && old(self)@.hold == Hold::Empty ==> old(
                self,
            )@.bag.next_round() <= u32::MAX,
        ensures
            final(self).wf(),
            final(self)@ == old(self)@.hold_phase(keys, final(self)@.next[0]),
            keys[6] && !old(self)@.holdflag && old(self)@.hold == Hold::Empty ==> old(
                self,
            )@.bag.can_deal(spec_index_of_kind(final(self)@.next[0])),
            final(self)@.score == old(self)@.score,
            final(self)@.clearlines == old(self)@.clearlines,
            final(self)@.total_frames == old(self)@.total_frames,
            final(self)@.current_frames <= old(self)@.current_frames,
            keys[6] && !old(self)@.holdflag ==> final(self)@.cont.pos == (0i32, 4i32),
            !(keys[6] && !old(self)@.holdflag) ==> final(self)@ == old(self)@,
            keys[6] && !old(self)@.holdflag ==> final(self)@.current_frames == 0,
            final(self)@.dropping == old(self)@.dropping,
    {
        if keys[6] && !self.holdflag {
            self.hold_swap();
            proof {
                reveal(GameView::hold_swap);
            }
        }
    }

    /// Gravity and the frame counters.
    fn fall_phase(&mut self)
        requires
            old(self)@.dropping == DroppingState::Dropping || old(self)@.cont.mino == MinoKind::D
                || old(self)@.current_frames <= SAFTY_FRAMES,
            old(self).wf(),
            old(self)@.current_frames % old(self)@.gravity.reciprocal == 0 && old(self)@.cont.mino
                == MinoKind::D ==> old(self)@.cont.pos.0 <= i32::MAX - 2,
            old(self)@.gravity_may_fix() ==> old(self)@.fix_room(),
            old(self)@.total_frames < u32::MAX,
            old(self)@.current_frames < u32::MAX,
        ensures
            final(self).wf(),
            final(self)@ == old(self)@.fall_phase(),
            final(self)@.next == old(self)@.next,
            final(self)@.hold == old(self)@.hold,
            final(self)@.holdflag == old(self)@.holdflag,
            final(self)@.score >= old(self)@.score,
            final(self)@.clearlines >= old(self)@.clearlines,
            final(self)@.total_frames == old(self)@.total_frames + 1,
            final(self)@.score <= old(self)@.score + 900,
            final(self)@.clearlines <= old(self)@.clearlines + 4,
            !(old(self)@.cont.mino != MinoKind::D && old(self)@.current_frames > SAFTY_FRAMES
                && old(self)@.current_frames % old(self)@.gravity.reciprocal == 0) ==> (
            final(self)@.score == old(self)@.score && final(self)@.clearlines == old(
                self,
            )@.clearlines && final(self)@.dropping == old(self)@.dropping),
    {
        if self.current_frames % self.gravity.reciprocal == 0 {
            self.gravity_step();
        }
        self.total_frames += 1;
        self.current_frames += 1;
        proof {
            assert(self@.marks_ok());
            assert(self@.inv_core());
        }
    }

    /// Advances the game by one frame with the given keys pressed:
    /// `keys[0]` turn right, `keys[1]` turn left, `keys[2]` hard drop,
    /// `keys[3]` down, `keys[4]` right, `keys[5]` left, `keys[6]` hold.
    /// The kind dealt, if the step deals one, is at the front of the queue.
    ///
    /// The score and the line count never fall, and a step clears at most
    /// four lines. A step that can fix no piece (no hard drop, and no
    /// gravity tick on a piece that has fallen for more than 90 frames)
    /// leaves the piece falling, clears nothing and scores at most the
    /// soft drop's point. Once the hold slot has been used for the falling
    /// piece, the hold slot and the queue stay as they are.
    pub fn clock(&mut self, keys: [bool; 7])
        requires
            old(self).wf(),
            old(self)@.clock_ready(keys),
        ensures
            final(self).wf(),
            final(self)@.inv(),
            final(self)@ == old(self)@.clock(keys, final(self)@.next[0]),
            old(self)@.deals(keys) ==> old(self)@.bag.can_deal(
                spec_index_of_kind(final(self)@.next[0]),
            ),
            final(self)@.score >= old(self)@.score,
            final(self)@.clearlines >= old(self)@.clearlines,
            final(self)@.clearlines <= old(self)@.clearlines + 4,
            final(self)@.score <= old(self)@.score + 925,
            old(self)@.dropping == DroppingState::Dropping && !old(self)@.fix_possible(keys) ==> {
                &&& final(self)@.dropping == DroppingState::Dropping
                &&& final(self)@.clearlines == old(self)@.clearlines
                &&& final(self)@.score <= old(self)@.score + 1
            },
            old(self)@.dropping == DroppingState::Dropping && old(self)@.holdflag ==> {
                &&& final(self)@.holdflag
                &&& final(self)@.hold == old(self)@.hold
                &&& final(self)@.next == old(self)@.next
            },
            old(self)@.dropping == DroppingState::Dropping ==> final(self)@.total_frames
                == old(self)@.total_frames + 1,
            old(self)@.dropping != DroppingState::Dropping ==> final(self)@.total_frames
                == old(self)@.total_frames,
    {
        if let DroppingState::Interval(f) = self.dropping {
            if f > INTERVAL {
                self.interval_end();
            } else {
                self.dropping = DroppingState::Interval(f + 1);
            }
            return;
        }
        self.spin_phase(keys);
        self.move_phase(keys);
        self.hold_phase(keys);
        self.fall_phase();
    }
}

impl Game {
    /// Whether [`Game::rend_field`] may be called: while a piece is falling
    /// it is not the empty piece (whose landing place would never be found).
    pub fn can_rend_field(&self) -> (r: bool)
        ensures
            r == (self@.dropping == DroppingState::Dropping ==> self@.cont.mino != MinoKind::D),
    {
        match self.dropping {
            DroppingState::Dropping => match self.contmino.mino {
                MinoKind::D => false,
                _ => true,
            },
            DroppingState::Interval(_) => true,
        }
    }

    /// The visible part of the board (inside the walls, above the floor)
    /// with the falling piece and, in grey, where it would land.
    pub fn rend_field(&mut self) -> (r: [[Block; 10]; 20])
        requires
            old(self).wf(),
            old(self)@.dropping == DroppingState::Dropping ==> old(self)@.cont.mino != MinoKind::D,
        ensures
            final(self).wf(),
            final(self)@ == old(self)@,
            forall|i: int, j: int|
                0 <= i < 20 && 0 <= j < 10 ==> #[trigger] r[i][j] == rendered(old(self)@, i + 1, j + 1),
            old(self)@.dropping == DroppingState::Dropping ==> forall|i: int, j: int|
                0 <= i < 20 && 0 <= j < 10 && spec_cell(
                    old(self)@.cont.mino,
                    old(self)@.cont.dir,
                    i + 1 - old(self)@.cont.pos.0,
                    j + 1 - old(self)@.cont.pos.1,
                ) ==> #[trigger] r[i][j] == (Block {
                    filled: true,
                    color: spec_color(old(self)@.cont.mino),
                    clearing: false,
                }),
    {
        let ghost v0 = self@;
        let ghost f0 = v0.field;
        let ghost c0 = v0.cont;
        let mut cln = self.field;
        if let DroppingState::Dropping = self.dropping {
            let n = drop_rows(&self.field, &self.contmino);
            let (x, y) = self.contmino.pos;
            let mino = self.contmino.mino;
            proof {
                lemma_in_board_bounds(c0.mino, c0.dir, c0.pos.0 as int, c0.pos.1 as int);
                if n > 0 {
                    assert(c0.shifted(n as int, 0).fits(f0));
                    lemma_fits_in_board(f0, c0.shifted(n as int, 0));
                }
            }
            paint(&mut cln, &self.contmino, x + n, y, Block::new(false, Color::Gray));
            paint(&mut cln, &self.contmino, x, y, Block::new(true, mino.color()));
        }
        let ghost painted = cln;
        proof {
            assert forall|p: int, q: int| 0 <= p < 22 && 0 <= q < 12 implies #[trigger] painted[p][q]
                == rendered(v0, p, q) by {
                assert(f0[p][q] == self.field[p][q]);
            }
        }
        let blank = Block::new(false, Color::Trans);
        let mut res: [[Block; 10]; 20] = [[blank; 10]; 20];
        let mut i: usize = 1;
        while i < 21
            invariant
                1 <= i <= 21,
                forall|p: int, q: int|
                    0 <= p < 22 && 0 <= q < 12 ==> #[trigger] cln[p][q] == rendered(v0, p, q),
                forall|a: int, b: int|
                    0 <= a < i - 1 && 0 <= b < 10 ==> #[trigger] res[a][b] == rendered(
                        v0,
                        a + 1,
                        b + 1,
                    ),
            decreases 21 - i,
        {
            let src = cln[i];
            let mut row: [Block; 10] = [blank; 10];
            let mut j: usize = 1;
            while j < 11
                invariant
                    1 <= i < 21,
                    1 <= j <= 11,
                    src == cln[i as int],
                    forall|p: int, q: int|
                        0 <= p < 22 && 0 <= q < 12 ==> #[trigger] cln[p][q] == rendered(v0, p, q),
                    forall|b: int| 0 <= b < j - 1 ==> #[trigger] row[b] == rendered(v0, i as int, b + 1),
                decreases 11 - j,
            {
                row[j - 1] = src[j];
                assert(cln[i as int][j as int] == rendered(v0, i as int, j as int));
                j += 1;
            }
            let ghost rb = res;
            res[i - 1] = row;
            proof {
                assert forall|a: int, b: int| 0 <= a < i && 0 <= b < 10 implies #[trigger] res[a][b]
                    == rendered(v0, a + 1, b + 1) by {
                    if a < i - 1 {
                        assert(res[a] == rb[a]);
                    }
                }
            }
            i += 1;
        }
        proof {
            if v0.dropping == DroppingState::Dropping {
                assert forall|a: int, b: int|
                    0 <= a < 20 && 0 <= b < 10 && spec_cell(
                        c0.mino,
                        c0.dir,
                        a + 1 - c0.pos.0,
                        b + 1 - c0.pos.1,
                    ) implies #[trigger] res[a][b] == (Block {
                    filled: true,
                    color: spec_color(c0.mino),
                    clearing: false,
                }) by {
                    lemma_rendered_piece_on_top(v0, a + 1, b + 1);
                }
            }
        }
        res
    }
}

/// A hard drop always ends the piece's fall: the piece lands where it can
/// fall no further, is written into the board, the empty piece takes its
/// place and the pause after a clear begins; the score grows by at least the
/// rows fallen.
pub proof fn lemma_hard_drop_fixes(v: GameView)
    requires
        v.inv(),
        v.cont.mino != MinoKind::D,
        v.hard_drop_room(),
    ensures
        lands_after(v.field, v.cont, drop_distance(v.field, v.cont)),
        v.hard_drop().fix_mino().cont == spawned(MinoKind::D),
        v.hard_drop().fix_mino().dropping == DroppingState::Interval(0),
        v.hard_drop().fix_mino().score >= v.score + drop_distance(v.field, v.cont),
        v.hard_drop().fix_mino().clearlines >= v.clearlines,
        v.hard_drop().fix_mino().score == v.score + drop_distance(v.field, v.cont) + fix_points(
            v.field,
            v.cont.shifted(drop_distance(v.field, v.cont), 0),
        ),
        v.hard_drop().fix_mino().clearlines == v.clearlines + fix_lines(
            v.field,
            v.cont.shifted(drop_distance(v.field, v.cont), 0),
        ),
{
    reveal(GameView::hard_drop);
    reveal(GameView::fix_mino);
    reveal(GameView::lines_clear);
    lemma_lands(v.field, v.cont);
    let n = drop_distance(v.field, v.cont);
    let h = v.hard_drop();
    assert(h.cont.shifted(1, 0) == v.cont.shifted(n + 1, 0));
    assert(!h.cont.shifted(1, 0).fits(h.field));
    lemma_count_full_bound(
        stamp(h.field, h.cont),
        21,
    );
}

/// Clearing completed rows scores by how many are complete at once: 0, 100,
/// 300, 600 or 900 points for none to four rows, each row counting as one
/// line, and the pause that shows them begins.
pub proof fn lemma_clear_scores(v: GameView)
    requires
        count_full(v.field, 21) <= 4,
        v.score + seq![0int, 100, 300, 600, 900][count_full(v.field, 21)] <= u32::MAX,
        v.clearlines + count_full(v.field, 21) <= u32::MAX,
    ensures
        v.lines_clear().score == v.score + seq![0int, 100, 300, 600, 900][count_full(v.field, 21)],
        v.lines_clear().clearlines == v.clearlines + count_full(v.field, 21),
        v.lines_clear().dropping == DroppingState::Interval(0),
        v.lines_clear().gravity.reciprocal == if count_full(v.field, 21) > 0 && (v.clearlines
            + count_full(v.field, 21)) % 10 == 0 {
            if v.gravity.reciprocal * 9 / 10 > 5 {
                v.gravity.reciprocal * 9 / 10
            } else {
                5
            }
        } else {
            v.gravity.reciprocal as int
        },
{
    reveal(GameView::lines_clear);
    lemma_count_full_bound(v.field, 21);
}

/// While a piece falls, every cell it covers shows as a filled block of its
/// colour, whether or not its landing place covers the same cell; a cell of
/// the landing place that the piece does not cover shows grey and empty.
pub proof fn lemma_rendered_piece_on_top(v: GameView, x: int, y: int)
    requires
        v.inv(),
        v.dropping == DroppingState::Dropping,
    ensures
        spec_cell(v.cont.mino, v.cont.dir, x - v.cont.pos.0, y - v.cont.pos.1) ==> rendered(v, x, y)
            == (Block { filled: true, color: spec_color(v.cont.mino), clearing: false }),
        v.cont.mino != MinoKind::D && !spec_cell(v.cont.mino, v.cont.dir, x - v.cont.pos.0, y - v.cont.pos.1) && spec_cell(
            v.cont.mino,
            v.cont.dir,
            x - v.cont.pos.0 - drop_distance(v.field, v.cont),
            y - v.cont.pos.1,
        ) ==> rendered(v, x, y) == (Block { filled: false, color: Color::Gray, clearing: false }),
{
    let c = v.cont;
    if c.mino != MinoKind::D {
        lemma_in_board_bounds(c.mino, c.dir, c.pos.0 as int, c.pos.1 as int);
        lemma_lands(v.field, c);
    }
}

/// Gravity locks a piece that cannot fall: on a frame where gravity acts and
/// no key is pressed, once more than 90 frames have passed since the piece
/// started and it has come to rest (or more than the drop limit), its cells
/// are written into the board, the empty piece takes its place and the
/// pause after a lock begins.
pub proof fn lemma_gravity_locks(v: GameView, keys: [bool; 7], k: MinoKind)
    requires
        v.inv(),
        forall|i: int| 0 <= i < 7 ==> !keys[i],
        v.dropping == DroppingState::Dropping,
        v.cont.mino != MinoKind::D,
        !v.cont.shifted(1, 0).fits(v.field),
        v.current_frames % v.gravity.reciprocal == 0,
        v.current_frames > SAFTY_FRAMES,
        v.gravity.fix_flag || v.current_frames > v.gravity.drop_limit,
        v.fix_room(),
    ensures
        v.clock(keys, k).dropping == DroppingState::Interval(0),
        v.clock(keys, k).cont == spawned(MinoKind::D),
        forall|i: int, j: int|
            #[trigger] spec_cell(v.cont.mino, v.cont.dir, i, j) ==> v.clock(keys, k).field[v.cont.pos.0
                + i][v.cont.pos.1 + j].filled,
{
    reveal(GameView::gravity_step);
    reveal(GameView::fix_mino);
    reveal(GameView::lines_clear);
    let c = v.cont;
    assert(!keys[0] && !keys[1] && !keys[2] && !keys[3] && !keys[4] && !keys[5] && !keys[6]);
    assert(v.spin_phase(keys) == v);
    assert(v.move_phase(keys) == v);
    assert(v.hold_phase(keys, k) == v);
    assert(c.try_move(v.field, 1, 0) == c);
    lemma_stamp_occupies(v.field, c);
    let st = stamp(v.field, c);
    assert forall|i: int, j: int| #[trigger] spec_cell(c.mino, c.dir, i, j) implies v.clock(
        keys,
        k,
    ).field[c.pos.0 + i][c.pos.1 + j].filled by {
        assert(spec_in_board(c.mino, c.dir, c.pos.0 as int, c.pos.1 as int));
        assert(st[c.pos.0 + i][c.pos.1 + j].filled);
        assert(v.clock(keys, k).field == mark_clearing(st));
    }
}

/// When the pause after a lock ends, the next piece in the queue starts at
/// the spawn point on the board with the completed rows removed, and the
/// game is over exactly when it does not fit there.
pub proof fn lemma_next_piece_starts(v: GameView, keys: [bool; 7], k: MinoKind)
    requires
        v.inv(),
        v.dropping matches DroppingState::Interval(f) && f > INTERVAL,
    ensures
        v.clock(keys, k).cont == spawned(v.next.last()),
        v.clock(keys, k).field == v.lines_close().field,
        v.clock(keys, k).game_over == !spawned(v.next.last()).fits(v.lines_close().field),
        v.clock(keys, k).dropping == DroppingState::Dropping,
        v.clock(keys, k).current_frames == 0,
{
    reveal(GameView::interval_end);
    reveal(GameView::lines_close);
}

/// Gravity moves a piece down: on a frame where gravity acts and no key is
/// pressed, a piece that can fall a row falls exactly one row, and nothing
/// else about the board, the score or the line count changes; on other
/// frames without keys it stays where it is.
pub proof fn lemma_gravity_falls(v: GameView, keys: [bool; 7], k: MinoKind)
    requires
        v.inv(),
        forall|i: int| 0 <= i < 7 ==> !keys[i],
        v.dropping == DroppingState::Dropping,
        v.cont.mino != MinoKind::D,
    ensures
        v.current_frames % v.gravity.reciprocal == 0 && v.cont.shifted(1, 0).fits(v.field) ==> {
            &&& v.clock(keys, k).cont == v.cont.shifted(1, 0)
            &&& v.clock(keys, k).field == v.field
            &&& v.clock(keys, k).score == v.score
            &&& v.clock(keys, k).clearlines == v.clearlines
            &&& v.clock(keys, k).dropping == DroppingState::Dropping
        },
        v.current_frames % v.gravity.reciprocal != 0 ==> v.clock(keys, k).cont == v.cont,
{
    reveal(GameView::gravity_step);
    let c = v.cont;
    lemma_in_board_bounds(c.mino, c.dir, c.pos.0 as int, c.pos.1 as int);
    assert(!keys[0] && !keys[1] && !keys[2] && !keys[3] && !keys[4] && !keys[5] && !keys[6]);
    assert(v.spin_phase(keys) == v);
    assert(v.move_phase(keys) == v);
    assert(v.hold_phase(keys, k) == v);
    let c1 = c.shifted(1, 0);
    assert(c1.shifted(1, 0).shifted(-1, 0) == c1);
}

/// The hold key, when the hold slot may be used, puts the falling piece's
/// kind into the hold slot and starts the held piece, or, if none is held,
/// the next in the queue (which takes in the kind dealt); the game is over
/// if the piece started does not fit at the spawn point.
pub proof fn lemma_hold_swaps(v: GameView, keys: [bool; 7], k: MinoKind)
    requires
        v.inv(),
        keys[6],
        !keys[0] && !keys[1] && !keys[2] && !keys[3] && !keys[4] && !keys[5],
        v.dropping == DroppingState::Dropping,
        !v.holdflag,
    ensures
        v.clock(keys, k).hold == Hold::Holding(v.cont.mino),
        v.clock(keys, k).holdflag,
        v.clock(keys, k).cont.mino == (match v.hold {
            Hold::Holding(m) => m,
            Hold::Empty => v.next.last(),
        }),
        v.clock(keys, k).game_over == !spawned(
            match v.hold {
                Hold::Holding(m) => m,
                Hold::Empty => v.next.last(),
            },
        ).fits(v.field),
        v.clock(keys, k).next == (match v.hold {
            Hold::Holding(m) => v.next,
            Hold::Empty => seq![k] + v.next.drop_last(),
        }),
        v.clock(keys, k).score == v.score,
        v.clock(keys, k).field == v.field,
{
    reveal(GameView::hold_swap);
    reveal(GameView::gravity_step);
    assert(v.spin_phase(keys) == v);
    assert(v.move_phase(keys) == v);
    let m = match v.hold {
        Hold::Holding(m) => m,
        Hold::Empty => v.next.last(),
    };
    lemma_spawn_in_board(m);
    let h = v.hold_phase(keys, k);
    assert(h.cont == spawned(m));
    assert(h.current_frames == 0);
    let c = spawned(m);
    if m != MinoKind::D {
        lemma_in_board_bounds(c.mino, c.dir, c.pos.0 as int, c.pos.1 as int);
    }
    assert(c.shifted(1, 0).shifted(1, 0).shifted(-1, 0) == c.shifted(1, 0));
}

/// The move keys on a frame where gravity does not act: down moves the
/// piece a row down if it fits there, scoring a point; otherwise right or
/// left moves it a column if it fits there; a piece that does not fit
/// where it would go stays put.
pub proof fn lemma_moves(v: GameView, keys: [bool; 7], k: MinoKind)
    requires
        v.inv(),
        !keys[0] && !keys[1] && !keys[2] && !keys[6],
        v.dropping == DroppingState::Dropping,
        v.cont.mino != MinoKind::D,
        v.current_frames % v.gravity.reciprocal != 0,
        v.score < u32::MAX,
    ensures
        keys[3] ==> v.clock(keys, k).cont == (if v.cont.shifted(1, 0).fits(v.field) {
            v.cont.shifted(1, 0)
        } else {
            v.cont
        }),
        keys[3] ==> v.clock(keys, k).score == v.score + (if v.cont.shifted(1, 0).fits(v.field) {
            1int
        } else {
            0int
        }),
        !keys[3] && keys[4] ==> v.clock(keys, k).cont == (if v.cont.shifted(0, 1).fits(v.field) {
            v.cont.shifted(0, 1)
        } else {
            v.cont
        }),
        !keys[3] && !keys[4] && keys[5] ==> v.clock(keys, k).cont == (if v.cont.shifted(0, -1).fits(
            v.field,
        ) {
            v.cont.shifted(0, -1)
        } else {
            v.cont
        }),
        !keys[3] ==> v.clock(keys, k).score == v.score,
        v.clock(keys, k).field == v.field,
{
    reveal(GameView::soft_drop);
    assert(v.spin_phase(keys) == v);
}

/// During the pause after a lock the keys do nothing: each step only counts
/// the frame, until more than 20 frames have been shown.
pub proof fn lemma_pause_counts(v: GameView, keys: [bool; 7], k: MinoKind)
    requires
        v.dropping matches DroppingState::Interval(f) && f <= INTERVAL,
    ensures
        v.clock(keys, k) == (GameView {
            dropping: DroppingState::Interval((v.dropping->0 + 1) as u32),
            ..v
        }),
{
}

} // verus!
