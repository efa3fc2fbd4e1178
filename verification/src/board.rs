//! The board: its rows, walls and floor, complete rows and their removal,
//! pieces written into it, and how far a piece falls.
use vstd::prelude::*;

use crate::block::Block;
use crate::mino::{Color, Dir, MinoKind, spec_color, spec_shape, spec_size};
use crate::piece::{ControlledMino, field_view, spec_cell, spec_in_board};

verus! {

/// An empty row between the walls.
pub open spec fn empty_row() -> Seq<Block> {
    Seq::new(12, |j: int| Block { filled: j == 0 || j == 11, color: Color::Trans, clearing: false })
}

/// The floor row.
pub open spec fn floor_row() -> Seq<Block> {
    Seq::new(12, |j: int| Block { filled: true, color: Color::Trans, clearing: false })
}

/// The board at the start: empty rows between two walls, over the floor.
pub open spec fn initial_field() -> Seq<Seq<Block>> {
    Seq::new(22, |i: int| if i == 21 { floor_row() } else { empty_row() })
}

/// The walls (the outer columns) and the floor (the bottom row) are solid.
pub open spec fn walls_intact(field: Seq<Seq<Block>>) -> bool {
    &&& forall|i: int| 0 <= i < 22 ==> #[trigger] field[i][0].filled && field[i][11].filled
    &&& forall|j: int| 0 <= j < 12 ==> #[trigger] field[21][j].filled
}

/// The cell of a piece of the given kind in the queue or hold displays.
pub open spec fn preview_block(k: MinoKind, i: int, j: int) -> Block {
    Block {
        filled: spec_shape(k, i, j),
        color: if spec_shape(k, i, j) { spec_color(k) } else { Color::Trans },
        clearing: false,
    }
}

/// Row `i` is complete: every cell between the walls is occupied.
pub open spec fn row_full(field: Seq<Seq<Block>>, i: int) -> bool {
    forall|j: int| 1 <= j < 11 ==> #[trigger] field[i][j].filled
}

/// The number of complete rows among the first `n`.
pub open spec fn count_full(field: Seq<Seq<Block>>, n: int) -> int
    decreases n,
{
    if n <= 0 {
        0
    } else {
        count_full(field, n - 1) + if row_full(field, n - 1) {
            1int
        } else {
            0int
        }
    }
}

/// The board with the cells of every complete row (above the floor) marked
/// as being cleared.
pub open spec fn mark_clearing(field: Seq<Seq<Block>>) -> Seq<Seq<Block>> {
    Seq::new(
        22,
        |i: int|
            if 0 <= i < 21 && row_full(field, i) {
                Seq::new(
                    12,
                    |j: int|
                        if 1 <= j < 11 {
                            Block { clearing: true, ..field[i][j] }
                        } else {
                            field[i][j]
                        },
                )
            } else {
                field[i]
            },
    )
}

/// Points for clearing `n` lines at once.
pub open spec fn clear_score(n: int) -> int {
    if n <= 0 {
        0
    } else if n == 1 {
        100
    } else if n == 2 {
        300
    } else if n == 3 {
        600
    } else {
        900
    }
}

/// Gravity after a speed-up: nine tenths of the frames per row, rounded
/// down, but never fewer than the fastest.
pub open spec fn sped_up(r: u32) -> u32 {
    if r * 9 / 10 > 5 {
        (r * 9 / 10) as u32
    } else {
        5
    }
}

/// The number of rows among the first `n` marked for removal.
pub open spec fn count_targets(targets: Seq<bool>, n: int) -> int
    decreases n,
{
    if n <= 0 {
        0
    } else {
        count_targets(targets, n - 1) + if targets[n - 1] {
            1int
        } else {
            0int
        }
    }
}

/// The rows among the first `n` not marked for removal, top to bottom.
pub open spec fn kept_rows(field: Seq<Seq<Block>>, targets: Seq<bool>, n: int) -> Seq<Seq<Block>>
    decreases n,
{
    if n <= 0 {
        Seq::empty()
    } else if targets[n - 1] {
        kept_rows(field, targets, n - 1)
    } else {
        kept_rows(field, targets, n - 1).push(field[n - 1])
    }
}

/// The board after the marked rows are removed: as many empty rows on top,
/// then the remaining rows in their order, then the floor.
pub open spec fn closed_field(field: Seq<Seq<Block>>, targets: Seq<bool>) -> Seq<Seq<Block>> {
    (Seq::new(count_targets(targets, 21) as nat, |i: int| empty_row()) + kept_rows(
        field,
        targets,
        21,
    )).push(field[21])
}

/// The board with the piece's cells written into it.
pub open spec fn stamp(field: Seq<Seq<Block>>, c: ControlledMino) -> Seq<Seq<Block>> {
    Seq::new(
        22,
        |x: int|
            Seq::new(
                12,
                |y: int|
                    if spec_cell(c.mino, c.dir, x - c.pos.0, y - c.pos.1) {
                        Block { filled: true, color: spec_color(c.mino), clearing: false }
                    } else {
                        field[x][y]
                    },
            ),
    )
}

/// Dropped straight down, the piece falls `n` rows: each of them fits, the
/// next one does not.
pub open spec fn lands_after(field: Seq<Seq<Block>>, c: ControlledMino, n: int) -> bool {
    &&& n >= 0
    &&& forall|m: int| 1 <= m <= n ==> #[trigger] c.shifted(m, 0).fits(field)
    &&& !c.shifted(n + 1, 0).fits(field)
}

/// How far the piece falls when dropped straight down.
pub open spec fn drop_distance(field: Seq<Seq<Block>>, c: ControlledMino) -> int {
    choose|n: int| lands_after(field, c, n)
}

/// A fresh piece of kind `k` at the spawn point.
pub open spec fn spawned(k: MinoKind) -> ControlledMino {
    ControlledMino { pos: (0, 4), mino: k, dir: Dir::North }
}

/// The first `n` rows after removing the marked ones among them.
pub open spec fn closed_prefix(field: Seq<Seq<Block>>, targets: Seq<bool>, n: int) -> Seq<Seq<Block>> {
    Seq::new(count_targets(targets, n) as nat, |i: int| empty_row()) + kept_rows(field, targets, n)
}

pub(crate) proof fn lemma_kept_len(field: Seq<Seq<Block>>, targets: Seq<bool>, n: int)
    requires
        n >= 0,
    ensures
        count_targets(targets, n) >= 0,
        count_targets(targets, n) + kept_rows(field, targets, n).len() == n,
    decreases n,
{
    if n > 0 {
        lemma_kept_len(field, targets, n - 1);
    }
}

/// Every row kept is one of the unmarked rows it was kept from.
pub(crate) proof fn lemma_kept_from(field: Seq<Seq<Block>>, targets: Seq<bool>, n: int)
    requires
        n >= 0,
    ensures
        forall|a: int|
            0 <= a < kept_rows(field, targets, n).len() ==> exists|i: int|
                0 <= i < n && !targets[i] && #[trigger] kept_rows(field, targets, n)[a] == field[i],
    decreases n,
{
    if n > 0 {
        lemma_kept_from(field, targets, n - 1);
        let k = kept_rows(field, targets, n - 1);
        assert forall|a: int| 0 <= a < kept_rows(field, targets, n).len() implies exists|i: int|
            0 <= i < n && !targets[i] && #[trigger] kept_rows(field, targets, n)[a] == field[i] by {
            if a < k.len() {
                let i = choose|i: int| 0 <= i < n - 1 && !targets[i] && #[trigger] k[a] == field[i];
                assert(kept_rows(field, targets, n)[a] == field[i]);
            } else {
                assert(kept_rows(field, targets, n)[a] == field[n - 1]);
            }
        }
    }
}

/// Every piece but the empty one has a cell, in every direction.
pub proof fn lemma_has_cell(k: MinoKind, d: Dir)
    requires
        k != MinoKind::D,
    ensures
        exists|i: int, j: int| #[trigger] spec_cell(k, d, i, j),
{
    let s = spec_size(k);
    match k {
        MinoKind::O => {
            assert(spec_cell(k, d, 0, 0));
        },
        MinoKind::I => {
            match d {
                Dir::North => assert(spec_cell(k, d, 1, 0)),
                Dir::East => assert(spec_cell(k, d, 0, 2)),
                Dir::South => assert(spec_cell(k, d, 2, 0)),
                Dir::West => assert(spec_cell(k, d, 0, 1)),
            }
        },
        _ => {
            match d {
                Dir::North => assert(spec_cell(k, d, 1, 1)),
                Dir::East => assert(spec_cell(k, d, 1, 1)),
                Dir::South => assert(spec_cell(k, d, 1, 1)),
                Dir::West => assert(spec_cell(k, d, 1, 1)),
            }
        },
    }
}

/// A piece with a cell that lies inside the board has its box's corner
/// within three rows and columns of the board.
pub proof fn lemma_in_board_bounds(k: MinoKind, d: Dir, x: int, y: int)
    requires
        k != MinoKind::D,
        spec_in_board(k, d, x, y),
    ensures
        -3 <= x <= 21,
        -3 <= y <= 11,
{
    lemma_has_cell(k, d);
    let (i, j) = choose|i: int, j: int| #[trigger] spec_cell(k, d, i, j);
    assert(0 <= i < spec_size(k) && 0 <= j < spec_size(k));
}

/// A piece that fits lies inside the board.
pub proof fn lemma_fits_in_board(field: Seq<Seq<Block>>, c: ControlledMino)
    requires
        c.fits(field),
    ensures
        spec_in_board(c.mino, c.dir, c.pos.0 as int, c.pos.1 as int),
{
}

/// The distance a piece falls when dropped is the one after which it lands.
pub proof fn lemma_drop_distance(field: Seq<Seq<Block>>, c: ControlledMino, n: int)
    requires
        lands_after(field, c, n),
    ensures
        drop_distance(field, c) == n,
{
    let m = drop_distance(field, c);
    assert(lands_after(field, c, m));
    if m < n {
        assert(c.shifted(m + 1, 0).fits(field));
    } else if m > n {
        assert(c.shifted(n + 1, 0).fits(field));
    }
}

/// A freshly spawned piece lies inside the board.
pub proof fn lemma_spawn_in_board(k: MinoKind)
    ensures
        spec_in_board(k, Dir::North, 0, 4),
{
    assert forall|i: int, j: int| #[trigger] spec_cell(k, Dir::North, i, j) implies 0 <= 0 + i < 22
        && 0 <= 4 + j < 12 by {}
}

/// Writes `blk` into every cell of the board that the piece `c` covers when
/// its box's corner is at row `x`, column `y`.
pub(crate) fn paint(field: &mut [[Block; 12]; 22], c: &ControlledMino, x: i32, y: i32, blk: Block)
    requires
        spec_in_board(c.mino, c.dir, x as int, y as int),
    ensures
        forall|p: int, q: int|
            0 <= p < 22 && 0 <= q < 12 ==> #[trigger] final(field)[p][q] == if spec_cell(
                c.mino,
                c.dir,
                p - x,
                q - y,
            ) {
                blk
            } else {
                old(field)[p][q]
            },
{
    let ghost f0 = *field;
    let mino = c.mino;
    let dir = c.dir;
    let size = mino.size();
    let r = c.rend_mino();
    let mut i: usize = 0;
    while i < size
        invariant
            size == spec_size(mino),
            2 <= size <= 4,
            i <= size,
            mino == c.mino,
            dir == c.dir,
            spec_in_board(mino, dir, x as int, y as int),
            r@.len() == size,
            forall|a: int| 0 <= a < size ==> #[trigger] r@[a]@.len() == size,
            forall|a: int, b: int|
                0 <= a < size && 0 <= b < size ==> #[trigger] r@[a]@[b] == crate::piece::spec_rend(
                    mino,
                    dir,
                    a,
                    b,
                ),
            forall|p: int, q: int|
                0 <= p < 22 && 0 <= q < 12 ==> #[trigger] field[p][q] == if spec_cell(
                    mino,
                    dir,
                    p - x,
                    q - y,
                ) && p - x < i {
                    blk
                } else {
                    f0[p][q]
                },
        decreases size - i,
    {
        let mut j: usize = 0;
        while j < size
            invariant
                size == spec_size(mino),
                2 <= size <= 4,
                i < size,
                j <= size,
                mino == c.mino,
                dir == c.dir,
                spec_in_board(mino, dir, x as int, y as int),
                r@.len() == size,
                forall|a: int| 0 <= a < size ==> #[trigger] r@[a]@.len() == size,
                forall|a: int, b: int|
                    0 <= a < size && 0 <= b < size ==> #[trigger] r@[a]@[b]
                        == crate::piece::spec_rend(mino, dir, a, b),
                forall|p: int, q: int|
                    0 <= p < 22 && 0 <= q < 12 ==> #[trigger] field[p][q] == if spec_cell(
                        mino,
                        dir,
                        p - x,
                        q - y,
                    ) && (p - x < i || (p - x == i && q - y < j)) {
                        blk
                    } else {
                        f0[p][q]
                    },
            decreases size - j,
        {
            if r[i][j] {
                assert(spec_cell(mino, dir, i as int, j as int));
                let cx = (i as i32 + x) as usize;
                let cy = (j as i32 + y) as usize;
                let ghost fb = *field;
                let mut row = field[cx];
                row[cy] = blk;
                field[cx] = row;
                proof {
                    assert forall|p: int, q: int| 0 <= p < 22 && 0 <= q < 12 implies #[trigger] field[p][q]
                        == if spec_cell(mino, dir, p - x, q - y) && (p - x < i || (p - x == i && q
                        - y < j + 1)) {
                        blk
                    } else {
                        f0[p][q]
                    } by {
                        assert(fb[p][q] == if spec_cell(mino, dir, p - x, q - y) && (p - x < i || (p
                            - x == i && q - y < j)) {
                            blk
                        } else {
                            f0[p][q]
                        });
                        if p != cx || q != cy {
                            assert(field[p][q] == fb[p][q]);
                        }
                    }
                }
            } else {
                proof {
                    assert forall|p: int, q: int| 0 <= p < 22 && 0 <= q < 12 implies #[trigger] field[p][q]
                        == if spec_cell(mino, dir, p - x, q - y) && (p - x < i || (p - x == i && q
                        - y < j + 1)) {
                        blk
                    } else {
                        f0[p][q]
                    } by {
                        if p - x == i && q - y == j {
                            assert(!spec_cell(mino, dir, i as int, j as int));
                        }
                    }
                }
            }
            j += 1;
        }
        i += 1;
    }
    proof {
        assert forall|p: int, q: int| 0 <= p < 22 && 0 <= q < 12 implies #[trigger] field[p][q]
            == if spec_cell(mino, dir, p - x, q - y) {
            blk
        } else {
            f0[p][q]
        } by {
            if spec_cell(mino, dir, p - x, q - y) {
                assert(p - x < size);
            }
        }
    }
}

/// Removing the marked rows keeps the board's size: as many empty rows as
/// were marked come in at the top, the unmarked rows follow in their order,
/// and the floor stays where it is.
pub proof fn lemma_close_rows(field: Seq<Seq<Block>>, targets: Seq<bool>)
    requires
        field.len() == 22,
    ensures
        closed_field(field, targets).len() == 22,
        closed_field(field, targets)[21] == field[21],
        count_targets(targets, 21) + kept_rows(field, targets, 21).len() == 21,
        forall|i: int|
            0 <= i < count_targets(targets, 21) ==> #[trigger] closed_field(field, targets)[i]
                == empty_row(),
        forall|i: int|
            0 <= i < kept_rows(field, targets, 21).len() ==> #[trigger] closed_field(
                field,
                targets,
            )[count_targets(targets, 21) + i] == kept_rows(field, targets, 21)[i],
{
    lemma_kept_len(field, targets, 21);
}

/// Writing a piece into the board only occupies cells: no occupied cell is
/// freed, and every cell of the piece is occupied afterwards.
pub proof fn lemma_stamp_occupies(field: Seq<Seq<Block>>, c: ControlledMino)
    requires
        field.len() == 22,
        forall|i: int| 0 <= i < 22 ==> #[trigger] field[i].len() == 12,
    ensures
        forall|x: int, y: int|
            0 <= x < 22 && 0 <= y < 12 && #[trigger] field[x][y].filled ==> stamp(field, c)[x][y].filled,
        forall|i: int, j: int|
            #[trigger] spec_cell(c.mino, c.dir, i, j) && 0 <= c.pos.0 + i < 22 && 0 <= c.pos.1 + j
                < 12 ==> stamp(field, c)[c.pos.0 + i][c.pos.1 + j].filled,
{
}

/// The number of complete rows above the floor.
pub(crate) fn count_full_rows(field: &[[Block; 12]; 22]) -> (n: usize)
    ensures
        n == count_full(field_view(*field), 21),
        n <= 21,
{
    let ghost fv = field_view(*field);
    let mut n: usize = 0;
    let mut i: usize = 0;
    while i < 21
        invariant
            i <= 21,
            fv == field_view(*field),
            n == count_full(fv, i as int),
            n <= i,
        decreases 21 - i,
    {
        let row = field[i];
        assert(row@ == fv[i as int]);
        let mut full = true;
        let mut j: usize = 1;
        while j < 11
            invariant
                1 <= j <= 11,
                i < 21,
                row@ == fv[i as int],
                row@.len() == 12,
                full <==> forall|b: int| 1 <= b < j ==> #[trigger] row@[b].filled,
            decreases 11 - j,
        {
            if !row[j].filled {
                full = false;
            }
            j += 1;
        }
        assert(full == row_full(fv, i as int));
        if full {
            n += 1;
        }
        i += 1;
    }
    n
}

/// The board with piece `c` written into it where it stands.
pub(crate) fn stamped(field: &[[Block; 12]; 22], c: &ControlledMino) -> (g: [[Block; 12]; 22])
    requires
        spec_in_board(c.mino, c.dir, c.pos.0 as int, c.pos.1 as int),
    ensures
        field_view(g) == stamp(field_view(*field), *c),
{
    let (x, y) = c.pos;
    let mut g = *field;
    paint(&mut g, c, x, y, Block::new(true, c.mino.color()));
    proof {
        let f0 = field_view(*field);
        assert(field_view(g) =~= stamp(f0, *c)) by {
            assert forall|p: int| 0 <= p < 22 implies #[trigger] field_view(g)[p] =~= stamp(
                f0,
                *c,
            )[p] by {
                assert forall|q: int| 0 <= q < 12 implies #[trigger] field_view(g)[p][q] == stamp(
                    f0,
                    *c,
                )[p][q] by {
                    assert(g[p][q] == if spec_cell(c.mino, c.dir, p - x, q - y) {
                        Block { filled: true, color: spec_color(c.mino), clearing: false }
                    } else {
                        f0[p][q]
                    });
                }
            }
        }
    }
    g
}

/// How far piece `c` falls when dropped straight down.
pub(crate) fn drop_rows(field: &[[Block; 12]; 22], c: &ControlledMino) -> (n: i32)
    requires
        c.mino != MinoKind::D,
        spec_in_board(c.mino, c.dir, c.pos.0 as int, c.pos.1 as int),
    ensures
        n == drop_distance(field_view(*field), *c),
        lands_after(field_view(*field), *c, n as int),
        0 <= n <= 21 - c.pos.0,
{
    let ghost f0 = field_view(*field);
    let c0 = *c;
    proof {
        lemma_in_board_bounds(c0.mino, c0.dir, c0.pos.0 as int, c0.pos.1 as int);
    }
    let mut d = c0;
    let mut moving = true;
    while moving
        invariant
            f0 == field_view(*field),
            c0.mino != MinoKind::D,
            d == c0.shifted(d.pos.0 - c0.pos.0, 0),
            -3 <= c0.pos.0 <= 21,
            c0.pos.0 <= d.pos.0 <= 21,
            -3 <= d.pos.1 <= 11,
            spec_in_board(c0.mino, c0.dir, d.pos.0 as int, d.pos.1 as int),
            forall|m: int| 1 <= m <= d.pos.0 - c0.pos.0 ==> #[trigger] c0.shifted(m, 0).fits(f0),
            !moving ==> !c0.shifted(d.pos.0 - c0.pos.0 + 1, 0).fits(f0),
        decreases 22 - d.pos.0, (if moving {
            1int
        } else {
            0int
        }),
    {
        let ghost before = d;
        moving = d.move_mino(field, 1, 0);
        proof {
            let n = before.pos.0 - c0.pos.0;
            assert(c0.shifted(n, 0).shifted(1, 0) == c0.shifted(n + 1, 0));
            if moving {
                lemma_in_board_bounds(c0.mino, c0.dir, d.pos.0 as int, d.pos.1 as int);
            }
        }
    }
    proof {
        lemma_drop_distance(f0, c0, d.pos.0 - c0.pos.0);
    }
    d.pos.0 - c0.pos.0
}

/// A piece with a cell, inside the board, lands after some number of rows
/// when dropped.
pub proof fn lemma_lands(field: Seq<Seq<Block>>, c: ControlledMino)
    requires
        c.mino != MinoKind::D,
        spec_in_board(c.mino, c.dir, c.pos.0 as int, c.pos.1 as int),
        -3 <= c.pos.0 <= 21,
        -3 <= c.pos.1 <= 11,
    ensures
        lands_after(field, c, drop_distance(field, c)),
        0 <= drop_distance(field, c) <= 21 - c.pos.0,
    decreases 22 - c.pos.0,
{
    if !c.shifted(1, 0).fits(field) {
        assert(lands_after(field, c, 0));
        lemma_drop_distance(field, c, 0);
    } else {
        let c1 = c.shifted(1, 0);
        lemma_in_board_bounds(c1.mino, c1.dir, c1.pos.0 as int, c1.pos.1 as int);
        lemma_lands(field, c1);
        let n = drop_distance(field, c1);
        assert forall|m: int| 1 <= m <= n + 1 implies #[trigger] c.shifted(m, 0).fits(field) by {
            if m > 1 {
                assert(c1.shifted(m - 1, 0) == c.shifted(m, 0));
            }
        }
        assert(c1.shifted(n + 1, 0) == c.shifted(n + 2, 0));
        assert(lands_after(field, c, n + 1));
        lemma_drop_distance(field, c, n + 1);
    }
}

/// At most `n` of the first `n` rows are complete.
pub proof fn lemma_count_full_bound(field: Seq<Seq<Block>>, n: int)
    requires
        n >= 0,
    ensures
        0 <= count_full(field, n) <= n,
    decreases n,
{
    if n > 0 {
        lemma_count_full_bound(field, n - 1);
    }
}

/// On a board with no complete row, writing in a piece can complete only
/// rows that the piece's box spans.
pub proof fn lemma_stamp_full_rows(field: Seq<Seq<Block>>, c: ControlledMino)
    requires
        field.len() == 22,
        forall|i: int| 0 <= i < 22 ==> #[trigger] field[i].len() == 12,
        forall|i: int| 0 <= i < 21 ==> !#[trigger] row_full(field, i),
    ensures
        forall|i: int|
            0 <= i < 21 && #[trigger] row_full(stamp(field, c), i) ==> c.pos.0 <= i < c.pos.0 + 4,
{
    assert forall|i: int| 0 <= i < 21 && #[trigger] row_full(stamp(field, c), i) implies c.pos.0 <= i
        < c.pos.0 + 4 by {
        if !(c.pos.0 <= i < c.pos.0 + 4) {
            assert(!row_full(field, i));
            let j = choose|j: int| 1 <= j < 11 && !(#[trigger] field[i][j]).filled;
            assert(!spec_cell(c.mino, c.dir, i - c.pos.0, j - c.pos.1));
            assert(stamp(field, c)[i][j] == field[i][j]);
        }
    }
}

/// If only rows `a .. a + 4` can be complete, at most four are.
pub proof fn lemma_count_full_window(field: Seq<Seq<Block>>, n: int, a: int)
    requires
        n >= 0,
        forall|i: int| 0 <= i < n && #[trigger] row_full(field, i) ==> a <= i < a + 4,
    ensures
        count_full(field, n) <= if n <= a {
            0
        } else if n - a >= 4 {
            4
        } else {
            n - a
        },
        count_full(field, n) <= 4,
    decreases n,
{
    if n > 0 {
        lemma_count_full_window(field, n - 1, a);
        if row_full(field, n - 1) {
            assert(a <= n - 1 < a + 4);
        }
    }
}

} // verus!
