//! The seven tetrominoes (and the empty placeholder piece), their shapes,
//! sizes and colours, the four facing directions, and the wall-kick tables.
use vstd::prelude::*;

verus! {

/// The display colour of a cell.
#[derive(Debug, Clone, Copy, PartialEq, Eq, Structural)]
pub enum Color {
    Trans,
    Gray,
    Cyan,
    Yellow,
    Lime,
    Red,
    Blue,
    Orange,
    Purple,
}

/// A piece kind. `D` is the empty placeholder piece: it has no cells.
#[derive(Debug, Clone, Copy, PartialEq, Eq, Structural)]
pub enum MinoKind {
    D,
    I,
    O,
    S,
    Z,
    J,
    L,
    T,
}

/// Side length of the square box in which a piece is drawn and turned.
pub open spec fn spec_size(k: MinoKind) -> int {
    match k {
        MinoKind::O => 2,
        MinoKind::D | MinoKind::I => 4,
        _ => 3,
    }
}

/// The cells of a piece in its spawn orientation (row `i`, column `j`).
pub open spec fn spec_shape(k: MinoKind, i: int, j: int) -> bool {
    match k {
        MinoKind::D => false,
        MinoKind::I => i == 1 && 0 <= j < 4,
        MinoKind::O => 0 <= i < 2 && 0 <= j < 2,
        MinoKind::S => (i == 0 && (j == 1 || j == 2)) || (i == 1 && (j == 0 || j == 1)),
        MinoKind::Z => (i == 0 && (j == 0 || j == 1)) || (i == 1 && (j == 1 || j == 2)),
        MinoKind::J => (i == 0 && j == 0) || (i == 1 && 0 <= j < 3),
        MinoKind::L => (i == 0 && j == 2) || (i == 1 && 0 <= j < 3),
        MinoKind::T => (i == 0 && j == 1) || (i == 1 && 0 <= j < 3),
    }
}

/// The colour in which a piece is drawn.
pub open spec fn spec_color(k: MinoKind) -> Color {
    match k {
        MinoKind::D => Color::Trans,
        MinoKind::I => Color::Cyan,
        MinoKind::O => Color::Yellow,
        MinoKind::S => Color::Lime,
        MinoKind::Z => Color::Red,
        MinoKind::J => Color::Blue,
        MinoKind::L => Color::Orange,
        MinoKind::T => Color::Purple,
    }
}

/// The kinds that the randomiser deals, by index.
pub open spec fn spec_kind_of_index(i: int) -> MinoKind {
    if i == 0 {
        MinoKind::I
    } else if i == 1 {
        MinoKind::O
    } else if i == 2 {
        MinoKind::S
    } else if i == 3 {
        MinoKind::Z
    } else if i == 4 {
        MinoKind::J
    } else if i == 5 {
        MinoKind::L
    } else {
        MinoKind::T
    }
}

impl MinoKind {
    /// Side length of the piece's box.
    pub fn size(&self) -> (r: usize)
        ensures
            r == spec_size(*self),
    {
        match self {
            MinoKind::O => 2,
            MinoKind::D | MinoKind::I => 4,
            _ => 3,
        }
    }

    /// Whether cell `(i, j)` of the piece's box is occupied, in the spawn
    /// orientation.
    pub fn shape(&self, i: usize, j: usize) -> (r: bool)
        ensures
            r == spec_shape(*self, i as int, j as int),
    {
        match self {
            MinoKind::D => false,
            MinoKind::I => i == 1 && j < 4,
            MinoKind::O => i < 2 && j < 2,
            MinoKind::S => (i == 0 && (j == 1 || j == 2)) || (i == 1 && (j == 0 || j == 1)),
            MinoKind::Z => (i == 0 && (j == 0 || j == 1)) || (i == 1 && (j == 1 || j == 2)),
            MinoKind::J => (i == 0 && j == 0) || (i == 1 && j < 3),
            MinoKind::L => (i == 0 && j == 2) || (i == 1 && j < 3),
            MinoKind::T => (i == 0 && j == 1) || (i == 1 && j < 3),
        }
    }

    /// The colour in which the piece is drawn.
    pub fn color(&self) -> (r: Color)
        ensures
            r == spec_color(*self),
    {
        match self {
            MinoKind::D => Color::Trans,
            MinoKind::I => Color::Cyan,
            MinoKind::O => Color::Yellow,
            MinoKind::S => Color::Lime,
            MinoKind::Z => Color::Red,
            MinoKind::J => Color::Blue,
            MinoKind::L => Color::Orange,
            MinoKind::T => Color::Purple,
        }
    }

    /// The kind that the randomiser deals under index `i` (`i < 7`).
    pub fn of_index(i: usize) -> (r: MinoKind)
        requires
            i < 7,
        ensures
            r == spec_kind_of_index(i as int),
            r != MinoKind::D,
    {
        if i == 0 {
            MinoKind::I
        } else if i == 1 {
            MinoKind::O
        } else if i == 2 {
            MinoKind::S
        } else if i == 3 {
            MinoKind::Z
        } else if i == 4 {
            MinoKind::J
        } else if i == 5 {
            MinoKind::L
        } else {
            MinoKind::T
        }
    }
}

/// The direction a piece faces; turning right goes North, East, South, West.
#[derive(Debug, Clone, Copy, PartialEq, Eq, Structural)]
pub enum Dir {
    North,
    East,
    South,
    West,
}

/// The direction after a right turn.
pub open spec fn spec_next(d: Dir) -> Dir {
    match d {
        Dir::North => Dir::East,
        Dir::East => Dir::South,
        Dir::South => Dir::West,
        Dir::West => Dir::North,
    }
}

/// The direction after a left turn.
pub open spec fn spec_pre(d: Dir) -> Dir {
    match d {
        Dir::North => Dir::West,
        Dir::East => Dir::North,
        Dir::South => Dir::East,
        Dir::West => Dir::South,
    }
}

/// The wall kicks tried, in order, after a right turn has brought a piece
/// of kind `k` to face `d` in a blocked place (offsets in rows, columns).
/// The tables follow the Super Rotation System (SRS): one for the I piece,
/// one for the other pieces.
pub open spec fn spec_next_kicks(d: Dir, k: MinoKind) -> Seq<(i32, i32)> {
    if spec_size(k) == 4 {
        match d {
            Dir::East => seq![(0i32, -2i32), (0i32, 1i32), (1i32, -2i32), (-2i32, 1i32)],
            Dir::South => seq![(0i32, -1i32), (0i32, 2i32), (-2i32, -1i32), (1i32, 2i32)],
            Dir::West => seq![(0i32, 2i32), (0i32, -1i32), (-1i32, 2i32), (2i32, -1i32)],
            Dir::North => seq![(0i32, 1i32), (0i32, -2i32), (2i32, 1i32), (-1i32, -2i32)],
        }
    } else {
        match d {
            Dir::East => seq![(0i32, -1i32), (-1i32, -1i32), (2i32, 0i32), (2i32, -1i32)],
            Dir::South => seq![(0i32, 1i32), (1i32, 1i32), (-2i32, 0i32), (-2i32, 1i32)],
            Dir::West => seq![(0i32, 1i32), (-1i32, 1i32), (2i32, 0i32), (2i32, 1i32)],
            Dir::North => seq![(0i32, -1i32), (1i32, -1i32), (-2i32, 0i32), (-2i32, -1i32)],
        }
    }
}

/// The wall kicks tried, in order, after a left turn has brought a piece
/// of kind `k` to face `d` in a blocked place.
pub open spec fn spec_pre_kicks(d: Dir, k: MinoKind) -> Seq<(i32, i32)> {
    if spec_size(k) == 4 {
        match d {
            Dir::West => seq![(0i32, -1i32), (0i32, 2i32), (-2i32, -1i32), (1i32, 2i32)],
            Dir::North => seq![(0i32, 2i32), (0i32, -1i32), (-1i32, 2i32), (2i32, -1i32)],
            Dir::East => seq![(0i32, 1i32), (0i32, -2i32), (2i32, 1i32), (-1i32, -2i32)],
            Dir::South => seq![(0i32, -2i32), (0i32, 1i32), (1i32, -2i32), (-2i32, 1i32)],
        }
    } else {
        match d {
            Dir::West => seq![(0i32, 1i32), (-1i32, 1i32), (2i32, 0i32), (2i32, 1i32)],
            Dir::North => seq![(0i32, 1i32), (1i32, 1i32), (-2i32, 0i32), (-2i32, 1i32)],
            Dir::East => seq![(0i32, -1i32), (-1i32, -1i32), (2i32, 0i32), (2i32, -1i32)],
            Dir::South => seq![(0i32, -1i32), (1i32, -1i32), (-2i32, 0i32), (-2i32, -1i32)],
        }
    }
}

impl Dir {
    /// The direction after a right turn.
    pub fn next(&self) -> (r: Dir)
        ensures
            r == spec_next(*self),
    {
        match self {
            Dir::North => Dir::East,
            Dir::East => Dir::South,
            Dir::South => Dir::West,
            Dir::West => Dir::North,
        }
    }

    /// The direction after a left turn.
    pub fn pre(&self) -> (r: Dir)
        ensures
            r == spec_pre(*self),
    {
        match self {
            Dir::North => Dir::West,
            Dir::East => Dir::North,
            Dir::South => Dir::East,
            Dir::West => Dir::South,
        }
    }

    /// The wall kicks for a right turn that has just brought `mino` to face
    /// this direction.
    pub fn next_sequences(&self, mino: MinoKind) -> (r: Vec<(i32, i32)>)
        ensures
            r@ == spec_next_kicks(*self, mino),
    {
        if mino.size() == 4 {
            match self {
                Dir::East => vec![(0, -2), (0, 1), (1, -2), (-2, 1)],
                Dir::South => vec![(0, -1), (0, 2), (-2, -1), (1, 2)],
                Dir::West => vec![(0, 2), (0, -1), (-1, 2), (2, -1)],
                Dir::North => vec![(0, 1), (0, -2), (2, 1), (-1, -2)],
            }
        } else {
            let d: i32 = match self {
                Dir::East | Dir::South => 1,
                _ => -1,
            };
            let nd: i32 = -d;
            match self {
                Dir::East | Dir::West => vec![(0, nd), (-1, nd), (2, 0), (2, nd)],
                _ => vec![(0, d), (1, d), (-2, 0), (-2, d)],
            }
        }
    }

    /// The wall kicks for a left turn that has just brought `mino` to face
    /// this direction.
    pub fn pre_sequences(&self, mino: MinoKind) -> (r: Vec<(i32, i32)>)
        ensures
            r@ == spec_pre_kicks(*self, mino),
    {
        if mino.size() == 4 {
            match self {
                Dir::West => vec![(0, -1), (0, 2), (-2, -1), (1, 2)],
                Dir::North => vec![(0, 2), (0, -1), (-1, 2), (2, -1)],
                Dir::East => vec![(0, 1), (0, -2), (2, 1), (-1, -2)],
                Dir::South => vec![(0, -2), (0, 1), (1, -2), (-2, 1)],
            }
        } else {
            let d: i32 = match self {
                Dir::West | Dir::North => 1,
                _ => -1,
            };
            match self {
                Dir::West | Dir::East => vec![(0, d), (-1, d), (2, 0), (2, d)],
                _ => vec![(0, d), (1, d), (-2, 0), (-2, d)],
            }
        }
    }
}

/// A right turn followed by a left turn, or a left turn followed by a right
/// turn, faces the piece the way it faced before; four right turns do too.
pub proof fn lemma_turns_undo(d: Dir)
    ensures
        spec_pre(spec_next(d)) == d,
        spec_next(spec_pre(d)) == d,
        spec_next(spec_next(spec_next(spec_next(d)))) == d,
{
}

/// The kicks of a left turn back from `d` undo those of the right turn into
/// `d`: the same offsets, each negated, in the same order.
pub proof fn lemma_kicks_mirror(d: Dir, k: MinoKind)
    ensures
        spec_next_kicks(d, k).len() == 4,
        spec_pre_kicks(spec_pre(d), k).len() == 4,
        forall|a: int|
            0 <= a < 4 ==> #[trigger] spec_pre_kicks(spec_pre(d), k)[a].0 == -spec_next_kicks(
                d,
                k,
            )[a].0 && spec_pre_kicks(spec_pre(d), k)[a].1 == -spec_next_kicks(d, k)[a].1,
{
}

/// The SRS offset of test `i` (0 to 4) for a piece of kind `k` facing `d`,
/// as (x, y) with x to the right and y upwards: one table for the I piece,
/// one for the other pieces.
pub open spec fn srs_offset(k: MinoKind, d: Dir, i: int) -> (int, int) {
    if spec_size(k) == 4 {
        match d {
            Dir::North => seq![(0int, 0int), (-1, 0), (2, 0), (-1, 0), (2, 0)][i],
            Dir::East => seq![(-1int, 0int), (0, 0), (0, 0), (0, 1), (0, -2)][i],
            Dir::South => seq![(-1int, 1int), (1, 1), (-2, 1), (1, 0), (-2, 0)][i],
            Dir::West => seq![(0int, 1int), (0, 1), (0, 1), (0, -1), (0, 2)][i],
        }
    } else {
        match d {
            Dir::North => (0, 0),
            Dir::East => seq![(0int, 0int), (1, 0), (1, -1), (0, 2), (1, 2)][i],
            Dir::South => (0, 0),
            Dir::West => seq![(0int, 0int), (-1, 0), (-1, -1), (0, 2), (-1, 2)][i],
        }
    }
}

/// The move (rows down, columns right) that SRS test `i` makes when a piece
/// of kind `k` turns from `from` to `to`: the difference of the two
/// directions' offsets, taken relative to that of the first test (the turn
/// in place).
pub open spec fn srs_kick(k: MinoKind, from: Dir, to: Dir, i: int) -> (int, int) {
    let dx = (srs_offset(k, from, i).0 - srs_offset(k, to, i).0) - (srs_offset(k, from, 0).0
        - srs_offset(k, to, 0).0);
    let dy = (srs_offset(k, from, i).1 - srs_offset(k, to, i).1) - (srs_offset(k, from, 0).1
        - srs_offset(k, to, 0).1);
    (-dy, dx)
}

/// The kicks tried after a turn are the SRS tests after the turn in place:
/// kick `a` of a right turn into `d` is SRS test `a + 1` from the direction
/// before `d`, and kick `a` of a left turn into `d` is SRS test `a + 1` from
/// the direction after `d`. So a T facing West against the right wall,
/// turned right, tries one column to the left first.
pub proof fn lemma_kicks_srs(d: Dir, k: MinoKind)
    ensures
        spec_next_kicks(d, k).len() == 4,
        spec_pre_kicks(d, k).len() == 4,
        forall|a: int|
            0 <= a < 4 ==> ((#[trigger] spec_next_kicks(d, k)[a]).0 as int, spec_next_kicks(
                d,
                k,
            )[a].1 as int) == srs_kick(k, spec_pre(d), d, a + 1),
        forall|a: int|
            0 <= a < 4 ==> ((#[trigger] spec_pre_kicks(d, k)[a]).0 as int, spec_pre_kicks(
                d,
                k,
            )[a].1 as int) == srs_kick(k, spec_next(d), d, a + 1),
{
    assert forall|a: int| 0 <= a < 4 implies ((#[trigger] spec_next_kicks(d, k)[a]).0 as int,
        spec_next_kicks(d, k)[a].1 as int) == srs_kick(k, spec_pre(d), d, a + 1) by {
        if a == 0 {
        } else if a == 1 {
        } else if a == 2 {
        } else {
        }
    }
    assert forall|a: int| 0 <= a < 4 implies ((#[trigger] spec_pre_kicks(d, k)[a]).0 as int,
        spec_pre_kicks(d, k)[a].1 as int) == srs_kick(k, spec_next(d), d, a + 1) by {
        if a == 0 {
        } else if a == 1 {
        } else if a == 2 {
        } else {
        }
    }
}

} // verus!
