//! The piece under the player's control: where it is, which way it faces,
//! whether it fits on the board, and how it moves and turns.
use vstd::prelude::*;

use crate::block::Block;
use crate::mino::{
    Dir, MinoKind, spec_next, spec_next_kicks, spec_pre, spec_pre_kicks, spec_shape, spec_size,
};

verus! {

/// The board as the contracts see it: row by row, cell by cell.
pub open spec fn field_view(f: [[Block; 12]; 22]) -> Seq<Seq<Block>> {
    Seq::new(22, |i: int| f[i]@)
}

/// Whether cell `(i, j)` of the box of a piece of kind `k` facing `d` is
/// occupied: the spawn shape turned a quarter per step to the right.
pub open spec fn spec_rend(k: MinoKind, d: Dir, i: int, j: int) -> bool {
    let s = spec_size(k);
    match d {
        Dir::North => spec_shape(k, i, j),
        Dir::East => spec_shape(k, s - 1 - j, i),
        Dir::South => spec_shape(k, s - 1 - i, s - 1 - j),
        Dir::West => spec_shape(k, j, s - 1 - i),
    }
}

/// `(i, j)` lies in the piece's box and is one of its cells.
pub open spec fn spec_cell(k: MinoKind, d: Dir, i: int, j: int) -> bool {
    0 <= i < spec_size(k) && 0 <= j < spec_size(k) && spec_rend(k, d, i, j)
}

/// A piece of kind `k` facing `d` with its box's corner at row `x`,
/// column `y` lies inside the board and covers no occupied cell.
pub open spec fn spec_fits(field: Seq<Seq<Block>>, k: MinoKind, d: Dir, x: int, y: int) -> bool {
    forall|i: int, j: int|
        #[trigger] spec_cell(k, d, i, j) ==> {
            &&& 0 <= x + i < 22
            &&& 0 <= y + j < 12
            &&& !field[x + i][y + j].filled
        }
}

/// Every cell of the piece lies inside the board (occupied or not).
pub open spec fn spec_in_board(k: MinoKind, d: Dir, x: int, y: int) -> bool {
    forall|i: int, j: int|
        #[trigger] spec_cell(k, d, i, j) ==> 0 <= x + i < 22 && 0 <= y + j < 12
}

/// Each cell of the piece, placed at row `x`, column `y`, has its row and
/// column within `i32`.
pub open spec fn cells_addable(k: MinoKind, d: Dir, x: int, y: int) -> bool {
    forall|i: int, j: int| #[trigger] spec_cell(k, d, i, j) ==> x + i <= i32::MAX && y + j <= i32::MAX
}

/// The piece the player moves.
#[derive(Debug, Clone, Copy)]
pub struct ControlledMino {
    pub pos: (i32, i32),
    pub mino: MinoKind,
    pub dir: Dir,
}

impl ControlledMino {
    /// The piece, where it stands, fits on the board.
    pub open spec fn fits(self, field: Seq<Seq<Block>>) -> bool {
        spec_fits(field, self.mino, self.dir, self.pos.0 as int, self.pos.1 as int)
    }

    /// Moving the piece by `(di, dj)` stays within `i32`: the new position,
    /// and the row and column of each of its cells there.
    pub open spec fn move_room(self, di: int, dj: int) -> bool {
        &&& i32::MIN <= self.pos.0 + di <= i32::MAX
        &&& i32::MIN <= self.pos.1 + dj <= i32::MAX
        &&& cells_addable(self.mino, self.dir, self.pos.0 + di, self.pos.1 + dj)
    }

    /// Trying `kicks` in order stays within `i32`: each kick that is tried
    /// (all those before it failed) has room.
    pub open spec fn kick_room(self, field: Seq<Seq<Block>>, kicks: Seq<(i32, i32)>) -> bool {
        forall|a: int|
            0 <= a < kicks.len() && (forall|b: int|
                0 <= b < a ==> !#[trigger] self.shifted(kicks[b].0 as int, kicks[b].1 as int).fits(
                    field,
                )) ==> #[trigger] self.move_room(kicks[a].0 as int, kicks[a].1 as int)
    }

    /// A right turn stays within `i32`: the turned piece's cells where it
    /// stands, and the kicks tried if it does not fit there.
    pub open spec fn spin_right_room(self, field: Seq<Seq<Block>>) -> bool {
        let c1 = ControlledMino { dir: spec_next(self.dir), ..self };
        &&& cells_addable(c1.mino, c1.dir, c1.pos.0 as int, c1.pos.1 as int)
        &&& !c1.fits(field) ==> c1.kick_room(field, spec_next_kicks(c1.dir, c1.mino))
    }

    /// A left turn stays within `i32`, as for [`ControlledMino::spin_right_room`].
    pub open spec fn spin_left_room(self, field: Seq<Seq<Block>>) -> bool {
        let c1 = ControlledMino { dir: spec_pre(self.dir), ..self };
        &&& cells_addable(c1.mino, c1.dir, c1.pos.0 as int, c1.pos.1 as int)
        &&& !c1.fits(field) ==> c1.kick_room(field, spec_pre_kicks(c1.dir, c1.mino))
    }

    /// The piece moved by `(di, dj)` (rows, columns).
    pub open spec fn shifted(self, di: int, dj: int) -> ControlledMino {
        ControlledMino { pos: ((self.pos.0 + di) as i32, (self.pos.1 + dj) as i32), ..self }
    }

    /// The piece after an attempt to move it by `(di, dj)`: moved if it
    /// fits there, unchanged otherwise.
    pub open spec fn try_move(self, field: Seq<Seq<Block>>, di: int, dj: int) -> ControlledMino {
        if self.shifted(di, dj).fits(field) {
            self.shifted(di, dj)
        } else {
            self
        }
    }

    /// The first of `kicks` by which the piece can be moved into a place
    /// where it fits.
    pub open spec fn first_kick(self, field: Seq<Seq<Block>>, kicks: Seq<(i32, i32)>) -> Option<
        ControlledMino,
    >
        decreases kicks.len(),
    {
        if kicks.len() == 0 {
            None
        } else if self.shifted(kicks[0].0 as int, kicks[0].1 as int).fits(field) {
            Some(self.shifted(kicks[0].0 as int, kicks[0].1 as int))
        } else {
            self.first_kick(field, kicks.drop_first())
        }
    }

    /// A right turn: turned in place if it fits, else turned and moved by
    /// the first kick that fits, else unchanged.
    pub open spec fn spun_right(self, field: Seq<Seq<Block>>) -> ControlledMino {
        let c1 = ControlledMino { dir: spec_next(self.dir), ..self };
        if c1.fits(field) {
            c1
        } else {
            match c1.first_kick(field, spec_next_kicks(c1.dir, c1.mino)) {
                Some(c2) => c2,
                None => self,
            }
        }
    }

    /// A left turn, as [`ControlledMino::spun_right`] with the left kicks.
    pub open spec fn spun_left(self, field: Seq<Seq<Block>>) -> ControlledMino {
        let c1 = ControlledMino { dir: spec_pre(self.dir), ..self };
        if c1.fits(field) {
            c1
        } else {
            match c1.first_kick(field, spec_pre_kicks(c1.dir, c1.mino)) {
                Some(c2) => c2,
                None => self,
            }
        }
    }

    /// A fresh piece at the spawn point, facing North.
    pub fn new(mino: MinoKind) -> (r: ControlledMino)
        ensures
            r == (ControlledMino { pos: (0, 4), mino, dir: Dir::North }),
    {
        ControlledMino { pos: (0, 4), mino, dir: Dir::North }
    }

    /// The piece's box as a grid of occupied cells, turned to its direction.
    pub fn rend_mino(&self) -> (r: Vec<Vec<bool>>)
        ensures
            r@.len() == spec_size(self.mino),
            forall|i: int|
                0 <= i < spec_size(self.mino) ==> #[trigger] r@[i]@.len() == spec_size(self.mino),
            forall|i: int, j: int|
                0 <= i < spec_size(self.mino) && 0 <= j < spec_size(self.mino) ==> #[trigger] r@[i]@[j]
                    == spec_rend(self.mino, self.dir, i, j),
    {
        let size = self.mino.size();
        let mut rows: Vec<Vec<bool>> = Vec::new();
        let mut i: usize = 0;
        while i < size
            invariant
                size == spec_size(self.mino),
                2 <= size <= 4,
                i <= size,
                rows@.len() == i,
                forall|a: int| 0 <= a < i ==> #[trigger] rows@[a]@.len() == size,
                forall|a: int, b: int|
                    0 <= a < i && 0 <= b < size ==> #[trigger] rows@[a]@[b] == spec_rend(
                        self.mino,
                        self.dir,
                        a,
                        b,
                    ),
            decreases size - i,
        {
            let mut row: Vec<bool> = Vec::new();
            let mut j: usize = 0;
            while j < size
                invariant
                    size == spec_size(self.mino),
                    2 <= size <= 4,
                    i < size,
                    j <= size,
                    row@.len() == j,
                    forall|b: int|
                        0 <= b < j ==> #[trigger] row@[b] == spec_rend(self.mino, self.dir, i as int, b),
                decreases size - j,
            {
                let cell = match self.dir {
                    Dir::North => self.mino.shape(i, j),
                    Dir::East => self.mino.shape(size - 1 - j, i),
                    Dir::South => self.mino.shape(size - 1 - i, size - 1 - j),
                    Dir::West => self.mino.shape(j, size - 1 - i),
                };
                row.push(cell);
                j += 1;
            }
            rows.push(row);
            i += 1;
        }
        rows
    }

    /// Whether the piece, where it stands, lies inside the board and covers
    /// no occupied cell.
    pub fn pos_verify(&self, field: &[[Block; 12]; 22]) -> (r: bool)
        requires
            cells_addable(self.mino, self.dir, self.pos.0 as int, self.pos.1 as int),
        ensures
            r == self.fits(field_view(*field)),
    {
        let r = self.rend_mino();
        let size = self.mino.size();
        let ghost fv = field_view(*field);
        let (x, y) = self.pos;
        let mut i: usize = 0;
        while i < size
            invariant
                size == spec_size(self.mino),
                2 <= size <= 4,
                i <= size,
                (x, y) == self.pos,
                cells_addable(self.mino, self.dir, x as int, y as int),
                fv == field_view(*field),
                r@.len() == size,
                forall|a: int| 0 <= a < size ==> #[trigger] r@[a]@.len() == size,
                forall|a: int, b: int|
                    0 <= a < size && 0 <= b < size ==> #[trigger] r@[a]@[b] == spec_rend(
                        self.mino,
                        self.dir,
                        a,
                        b,
                    ),
                forall|a: int, b: int|
                    #![trigger spec_cell(self.mino, self.dir, a, b)]
                    0 <= a < i && spec_cell(self.mino, self.dir, a, b) ==> {
                        &&& 0 <= x + a < 22
                        &&& 0 <= y + b < 12
                        &&& !fv[x + a][y + b].filled
                    },
            decreases size - i,
        {
            let mut j: usize = 0;
            while j < size
                invariant
                    size == spec_size(self.mino),
                    2 <= size <= 4,
                    i < size,
                    j <= size,
                    (x, y) == self.pos,
                    cells_addable(self.mino, self.dir, x as int, y as int),
                    fv == field_view(*field),
                    r@.len() == size,
                    forall|a: int| 0 <= a < size ==> #[trigger] r@[a]@.len() == size,
                    forall|a: int, b: int|
                        0 <= a < size && 0 <= b < size ==> #[trigger] r@[a]@[b] == spec_rend(
                            self.mino,
                            self.dir,
                            a,
                            b,
                        ),
                    forall|a: int, b: int|
                        #![trigger spec_cell(self.mino, self.dir, a, b)]
                        (0 <= a < i || (a == i && 0 <= b < j)) && spec_cell(self.mino, self.dir, a, b)
                            ==> {
                            &&& 0 <= x + a < 22
                            &&& 0 <= y + b < 12
                            &&& !fv[x + a][y + b].filled
                        },
                decreases size - j,
            {
                if r[i][j] {
                    assert(spec_cell(self.mino, self.dir, i as int, j as int));
                    let cx: i32 = i as i32 + x;
                    let cy: i32 = j as i32 + y;
                    if cx < 0 || 21 < cx || cy < 0 || 11 < cy {
                        assert(spec_cell(self.mino, self.dir, i as int, j as int));
                        return false;
                    }
                    if field[cx as usize][cy as usize].filled {
                        assert(spec_cell(self.mino, self.dir, i as int, j as int));
                        assert(fv[cx as int][cy as int] == field[cx as int][cy as int]);
                        return false;
                    }
                    assert(fv[cx as int][cy as int] == field[cx as int][cy as int]);
                }
                j += 1;
            }
            i += 1;
        }
        true
    }

    /// Moves the piece by `(i, j)` if it fits there; says whether it moved.
    pub fn move_mino(&mut self, field: &[[Block; 12]; 22], i: i32, j: i32) -> (r: bool)
        requires
            old(self).move_room(i as int, j as int),
        ensures
            r == old(self).shifted(i as int, j as int).fits(field_view(*field)),
            *final(self) == old(self).try_move(field_view(*field), i as int, j as int),
    {
        let pre = self.pos;
        self.pos = (self.pos.0 + i, self.pos.1 + j);
        if !self.pos_verify(field) {
            self.pos = pre;
            return false;
        }
        true
    }

    /// Tries `kicks` in order from where the piece stands, stopping at the
    /// first that fits; says whether one did.
    fn try_kicks(&mut self, field: &[[Block; 12]; 22], kicks: &Vec<(i32, i32)>) -> (r: bool)
        requires
            old(self).kick_room(field_view(*field), kicks@),
        ensures
            r == (old(self).first_kick(field_view(*field), kicks@) is Some),
            r ==> Some(*final(self)) == old(self).first_kick(field_view(*field), kicks@),
            !r ==> *final(self) == *old(self),
    {
        let ghost fv = field_view(*field);
        let ghost c0 = *self;
        let mut k: usize = 0;
        let mut moved = false;
        assert(kicks@.skip(0) =~= kicks@);
        while !moved && k < kicks.len()
            invariant
                fv == field_view(*field),
                c0.kick_room(fv, kicks@),
                k <= kicks@.len(),
                !moved ==> forall|b: int|
                    0 <= b < k ==> !#[trigger] c0.shifted(kicks@[b].0 as int, kicks@[b].1 as int).fits(
                        fv,
                    ),
                !moved ==> *self == c0,
                !moved ==> c0.first_kick(fv, kicks@) == c0.first_kick(fv, kicks@.skip(k as int)),
                moved ==> Some(*self) == c0.first_kick(fv, kicks@),
            decreases kicks@.len() - k, (if moved { 0int } else { 1int }),
        {
            let (di, dj) = kicks[k];
            proof {
                let rest = kicks@.skip(k as int);
                assert(rest[0] == kicks@[k as int]);
                assert(rest.drop_first() =~= kicks@.skip(k + 1));
            }
            assert(c0.move_room(kicks@[k as int].0 as int, kicks@[k as int].1 as int));
            if self.move_mino(field, di, dj) {
                moved = true;
            } else {
                k += 1;
            }
        }
        proof {
            if !moved {
                assert(kicks@.skip(k as int) =~= Seq::<(i32, i32)>::empty());
            }
        }
        moved
    }

    /// Turns the piece right, trying the wall kicks if it does not fit.
    pub fn spin_right(&mut self, field: &[[Block; 12]; 22])
        requires
            old(self).spin_right_room(field_view(*field)),
        ensures
            *final(self) == old(self).spun_right(field_view(*field)),
    {
        self.dir = self.dir.next();
        let mino = self.mino;
        if !self.pos_verify(field) {
            let kicks = self.dir.next_sequences(mino);
            proof {
                assert(kicks@.len() == 4);
            }
            if !self.try_kicks(field, &kicks) {
                self.dir = self.dir.pre();
            }
        }
    }

    /// Turns the piece left, trying the wall kicks if it does not fit.
    pub fn spin_left(&mut self, field: &[[Block; 12]; 22])
        requires
            old(self).spin_left_room(field_view(*field)),
        ensures
            *final(self) == old(self).spun_left(field_view(*field)),
    {
        self.dir = self.dir.pre();
        let mino = self.mino;
        if !self.pos_verify(field) {
            let kicks = self.dir.pre_sequences(mino);
            proof {
                assert(kicks@.len() == 4);
            }
            if !self.try_kicks(field, &kicks) {
                self.dir = self.dir.next();
            }
        }
    }
}

/// A kick found for a piece fits, and keeps the piece's kind and direction.
pub proof fn lemma_first_kick_fits(c: ControlledMino, field: Seq<Seq<Block>>, kicks: Seq<(i32, i32)>)
    ensures
        c.first_kick(field, kicks) matches Some(c2) ==> c2.fits(field) && c2.mino == c.mino
            && c2.dir == c.dir,
    decreases kicks.len(),
{
    if kicks.len() > 0 {
        lemma_first_kick_fits(c, field, kicks.drop_first());
    }
}

/// A turn leaves the piece's kind as it was, and either leaves the piece
/// where and as it was or brings it to a place where it fits; the empty
/// piece turns in place.
pub proof fn lemma_spun(c: ControlledMino, field: Seq<Seq<Block>>)
    ensures
        c.spun_right(field).mino == c.mino,
        c.spun_left(field).mino == c.mino,
        c.spun_right(field) == c || c.spun_right(field).fits(field),
        c.spun_left(field) == c || c.spun_left(field).fits(field),
        c.mino == MinoKind::D ==> c.spun_right(field).pos == c.pos && c.spun_left(field).pos
            == c.pos,
{
    let r1 = ControlledMino { dir: spec_next(c.dir), ..c };
    let l1 = ControlledMino { dir: spec_pre(c.dir), ..c };
    lemma_first_kick_fits(r1, field, spec_next_kicks(r1.dir, r1.mino));
    lemma_first_kick_fits(l1, field, spec_pre_kicks(l1.dir, l1.mino));
}

/// Every kick moves a piece by at most two rows and two columns.
pub proof fn lemma_kicks_small(d: Dir, k: MinoKind)
    ensures
        spec_next_kicks(d, k).len() == 4,
        spec_pre_kicks(d, k).len() == 4,
        forall|a: int|
            0 <= a < 4 ==> -2 <= #[trigger] spec_next_kicks(d, k)[a].0 <= 2 && -2 <= spec_next_kicks(
                d,
                k,
            )[a].1 <= 2,
        forall|a: int|
            0 <= a < 4 ==> -2 <= #[trigger] spec_pre_kicks(d, k)[a].0 <= 2 && -2 <= spec_pre_kicks(
                d,
                k,
            )[a].1 <= 2,
{
    let n = spec_next_kicks(d, k);
    let p = spec_pre_kicks(d, k);
    assert forall|a: int| 0 <= a < 4 implies -2 <= #[trigger] n[a].0 <= 2 && -2 <= n[a].1 <= 2 by {
        if a == 0 {
        } else if a == 1 {
        } else if a == 2 {
        } else {
        }
    }
    assert forall|a: int| 0 <= a < 4 implies -2 <= #[trigger] p[a].0 <= 2 && -2 <= p[a].1 <= 2 by {
        if a == 0 {
        } else if a == 1 {
        } else if a == 2 {
        } else {
        }
    }
}

/// A turn has room whenever the piece is the empty one (which turns in place)
/// or stands near the board.
pub proof fn lemma_spin_room(c: ControlledMino, field: Seq<Seq<Block>>)
    requires
        c.mino == MinoKind::D || (-3 <= c.pos.0 <= 21 && -3 <= c.pos.1 <= 11),
    ensures
        c.spin_right_room(field),
        c.spin_left_room(field),
{
    lemma_kicks_small(spec_next(c.dir), c.mino);
    lemma_kicks_small(spec_pre(c.dir), c.mino);
}

/// A piece that fits still fits after a turn either way; a right turn made
/// in place is undone by a left turn.
pub proof fn lemma_turns_keep_fit(c: ControlledMino, field: Seq<Seq<Block>>)
    requires
        c.fits(field),
    ensures
        c.spun_right(field).fits(field),
        c.spun_left(field).fits(field),
        c.spun_right(field).pos == c.pos && c.spun_right(field).dir == spec_next(c.dir)
            ==> c.spun_right(field).spun_left(field) == c,
        c.spun_left(field).pos == c.pos && c.spun_left(field).dir == spec_pre(c.dir)
            ==> c.spun_left(field).spun_right(field) == c,
{
    lemma_spun(c, field);
    let r = c.spun_right(field);
    let l = c.spun_left(field);
    lemma_first_kick_fits(
        ControlledMino { dir: spec_next(c.dir), ..c },
        field,
        spec_next_kicks(spec_next(c.dir), c.mino),
    );
    lemma_first_kick_fits(
        ControlledMino { dir: spec_pre(c.dir), ..c },
        field,
        spec_pre_kicks(spec_pre(c.dir), c.mino),
    );
    if r.pos == c.pos && r.dir == spec_next(c.dir) {
        assert(ControlledMino { dir: spec_pre(r.dir), ..r } == c);
    }
    if l.pos == c.pos && l.dir == spec_pre(c.dir) {
        assert(ControlledMino { dir: spec_next(l.dir), ..l } == c);
    }
}

/// Trying kicks in order gives the first by which the piece fits, every
/// earlier one having failed; it gives nothing exactly when none fits.
pub proof fn lemma_first_kick_first(
    c: ControlledMino,
    field: Seq<Seq<Block>>,
    kicks: Seq<(i32, i32)>,
)
    ensures
        (c.first_kick(field, kicks) is None) <==> forall|a: int|
            0 <= a < kicks.len() ==> !#[trigger] c.shifted(kicks[a].0 as int, kicks[a].1 as int).fits(
                field,
            ),
        c.first_kick(field, kicks) is Some ==> exists|a: int|
            0 <= a < kicks.len() && c.first_kick(field, kicks) == Some(
                #[trigger] c.shifted(kicks[a].0 as int, kicks[a].1 as int),
            ) && c.shifted(kicks[a].0 as int, kicks[a].1 as int).fits(field) && forall|b: int|
                0 <= b < a ==> !#[trigger] c.shifted(kicks[b].0 as int, kicks[b].1 as int).fits(
                    field,
                ),
    decreases kicks.len(),
{
    if kicks.len() > 0 {
        let rest = kicks.drop_first();
        lemma_first_kick_first(c, field, rest);
        if c.shifted(kicks[0].0 as int, kicks[0].1 as int).fits(field) {
            assert(c.first_kick(field, kicks) == Some(
                c.shifted(kicks[0].0 as int, kicks[0].1 as int),
            ));
        } else {
            assert forall|a: int| 1 <= a < kicks.len() implies kicks[a] == rest[a - 1] by {}
            if c.first_kick(field, rest) is Some {
                let a = choose|a: int|
                    0 <= a < rest.len() && c.first_kick(field, rest) == Some(
                        #[trigger] c.shifted(rest[a].0 as int, rest[a].1 as int),
                    ) && c.shifted(rest[a].0 as int, rest[a].1 as int).fits(field) && forall|b: int|
                        0 <= b < a ==> !#[trigger] c.shifted(rest[b].0 as int, rest[b].1 as int).fits(
                            field,
                        );
                assert(kicks[a + 1] == rest[a]);
                assert forall|b: int| 0 <= b < a + 1 implies !#[trigger] c.shifted(
                    kicks[b].0 as int,
                    kicks[b].1 as int,
                ).fits(field) by {
                    if b > 0 {
                        assert(kicks[b] == rest[b - 1]);
                    }
                }
            } else {
                assert forall|a: int| 0 <= a < kicks.len() implies !#[trigger] c.shifted(
                    kicks[a].0 as int,
                    kicks[a].1 as int,
                ).fits(field) by {
                    if a > 0 {
                        assert(kicks[a] == rest[a - 1]);
                    }
                }
            }
        }
    }
}

/// A right turn turns the piece in place if it fits there; otherwise it
/// takes the first of the right-turn kicks, tried in order, by which the
/// turned piece fits; if none fits, the piece stays as it was.
pub proof fn lemma_spin_right_order(c: ControlledMino, field: Seq<Seq<Block>>)
    ensures
        (ControlledMino { dir: spec_next(c.dir), ..c }).fits(field) ==> c.spun_right(field) == (
        ControlledMino { dir: spec_next(c.dir), ..c }),
        !(ControlledMino { dir: spec_next(c.dir), ..c }).fits(field) && (forall|a: int|
            0 <= a < 4 ==> !#[trigger] (ControlledMino { dir: spec_next(c.dir), ..c }).shifted(
                spec_next_kicks(spec_next(c.dir), c.mino)[a].0 as int,
                spec_next_kicks(spec_next(c.dir), c.mino)[a].1 as int,
            ).fits(field)) ==> c.spun_right(field) == c,
        !(ControlledMino { dir: spec_next(c.dir), ..c }).fits(field) && c.spun_right(field) != c
            ==> exists|a: int|
            0 <= a < 4 && c.spun_right(field) == #[trigger] (ControlledMino {
                dir: spec_next(c.dir),
                ..c
            }).shifted(
                spec_next_kicks(spec_next(c.dir), c.mino)[a].0 as int,
                spec_next_kicks(spec_next(c.dir), c.mino)[a].1 as int,
            ) && c.spun_right(field).fits(field) && forall|b: int|
                0 <= b < a ==> !#[trigger] (ControlledMino { dir: spec_next(c.dir), ..c }).shifted(
                    spec_next_kicks(spec_next(c.dir), c.mino)[b].0 as int,
                    spec_next_kicks(spec_next(c.dir), c.mino)[b].1 as int,
                ).fits(field),
{
    let t = ControlledMino { dir: spec_next(c.dir), ..c };
    lemma_kicks_small(t.dir, c.mino);
    lemma_first_kick_first(t, field, spec_next_kicks(t.dir, t.mino));
}

/// A left turn turns the piece in place if it fits there; otherwise it
/// takes the first of the left-turn kicks, tried in order, by which the
/// turned piece fits; if none fits, the piece stays as it was.
pub proof fn lemma_spin_left_order(c: ControlledMino, field: Seq<Seq<Block>>)
    ensures
        (ControlledMino { dir: spec_pre(c.dir), ..c }).fits(field) ==> c.spun_left(field) == (
        ControlledMino { dir: spec_pre(c.dir), ..c }),
        !(ControlledMino { dir: spec_pre(c.dir), ..c }).fits(field) && (forall|a: int|
            0 <= a < 4 ==> !#[trigger] (ControlledMino { dir: spec_pre(c.dir), ..c }).shifted(
                spec_pre_kicks(spec_pre(c.dir), c.mino)[a].0 as int,
                spec_pre_kicks(spec_pre(c.dir), c.mino)[a].1 as int,
            ).fits(field)) ==> c.spun_left(field) == c,
        !(ControlledMino { dir: spec_pre(c.dir), ..c }).fits(field) && c.spun_left(field) != c
            ==> exists|a: int|
            0 <= a < 4 && c.spun_left(field) == #[trigger] (ControlledMino {
                dir: spec_pre(c.dir),
                ..c
            }).shifted(
                spec_pre_kicks(spec_pre(c.dir), c.mino)[a].0 as int,
                spec_pre_kicks(spec_pre(c.dir), c.mino)[a].1 as int,
            ) && c.spun_left(field).fits(field) && forall|b: int|
                0 <= b < a ==> !#[trigger] (ControlledMino { dir: spec_pre(c.dir), ..c }).shifted(
                    spec_pre_kicks(spec_pre(c.dir), c.mino)[b].0 as int,
                    spec_pre_kicks(spec_pre(c.dir), c.mino)[b].1 as int,
                ).fits(field),
{
    let t = ControlledMino { dir: spec_pre(c.dir), ..c };
    lemma_kicks_small(t.dir, c.mino);
    lemma_first_kick_first(t, field, spec_pre_kicks(t.dir, t.mino));
}

/// Turning right turns the piece's box a quarter turn clockwise: the cell
/// at row `i`, column `j` after the turn is the one at row `s - 1 - j`,
/// column `i` before it (`s` the box's side).
pub proof fn lemma_turn_rotates(k: MinoKind, d: Dir, i: int, j: int)
    ensures
        spec_cell(k, spec_next(d), i, j) == spec_cell(k, d, spec_size(k) - 1 - j, i),
{
}

/// The cells a piece of kind `k` covers, facing North.
spec fn spawn_cells(k: MinoKind) -> Seq<(int, int)> {
    match k {
        MinoKind::D => seq![],
        MinoKind::I => seq![(1int, 0int), (1int, 1int), (1int, 2int), (1int, 3int)],
        MinoKind::O => seq![(0int, 0int), (0int, 1int), (1int, 0int), (1int, 1int)],
        MinoKind::S => seq![(0int, 1int), (0int, 2int), (1int, 0int), (1int, 1int)],
        MinoKind::Z => seq![(0int, 0int), (0int, 1int), (1int, 1int), (1int, 2int)],
        MinoKind::J => seq![(0int, 0int), (1int, 0int), (1int, 1int), (1int, 2int)],
        MinoKind::L => seq![(0int, 2int), (1int, 0int), (1int, 1int), (1int, 2int)],
        MinoKind::T => seq![(0int, 1int), (1int, 0int), (1int, 1int), (1int, 2int)],
    }
}

/// Every piece but the empty one covers exactly four cells of its box (in
/// every direction, as turning only rotates the box); the empty piece covers
/// none.
pub proof fn lemma_four_cells(k: MinoKind)
    ensures
        k == MinoKind::D ==> forall|i: int, j: int| !#[trigger] spec_cell(k, Dir::North, i, j),
        k != MinoKind::D ==> exists|cs: Seq<(int, int)>|
            {
                &&& cs.len() == 4
                &&& cs.no_duplicates()
                &&& forall|i: int, j: int|
                    #[trigger] spec_cell(k, Dir::North, i, j) <==> ((i, j) == cs[0] || (i, j) == cs[1]
                        || (i, j) == cs[2] || (i, j) == cs[3])
            },
{
    if k != MinoKind::D {
        let cs = spawn_cells(k);
        assert(cs.len() == 4);
        assert(cs.no_duplicates());
        assert forall|i: int, j: int|
            #[trigger] spec_cell(k, Dir::North, i, j) <==> ((i, j) == cs[0] || (i, j) == cs[1]
                || (i, j) == cs[2] || (i, j) == cs[3]) by {}
    }
}

} // verus!
