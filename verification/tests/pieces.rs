use tetris_lib::game::Block;
use tetris_lib::mino::{Color, Dir, MinoKind};
use tetris_lib::piece::ControlledMino;

fn empty_field() -> [[Block; 12]; 22] {
    let empty = Block::new(false, Color::Trans);
    let wall = Block::new(true, Color::Trans);
    let mut line = [empty; 12];
    line[0] = wall;
    line[11] = wall;
    let mut field = [line; 22];
    field[21] = [wall; 12];
    field
}

fn cells(c: &ControlledMino) -> Vec<(i32, i32)> {
    let r = c.rend_mino();
    let mut out = Vec::new();
    for (i, row) in r.iter().enumerate() {
        for (j, &b) in row.iter().enumerate() {
            if b {
                out.push((c.pos.0 + i as i32, c.pos.1 + j as i32));
            }
        }
    }
    out
}

#[test]
fn dir_turns_cycle() {
    let all = [Dir::North, Dir::East, Dir::South, Dir::West];
    assert_eq!(Dir::North.next(), Dir::East);
    assert_eq!(Dir::East.next(), Dir::South);
    assert_eq!(Dir::South.next(), Dir::West);
    assert_eq!(Dir::West.next(), Dir::North);
    assert_eq!(Dir::North.pre(), Dir::West);
    for d in all.iter() {
        assert_eq!(d.next().pre(), *d);
        assert_eq!(d.pre().next(), *d);
        assert_eq!(d.next().next().next().next(), *d);
    }
}

#[test]
fn kick_tables() {
    assert_eq!(Dir::East.next_sequences(MinoKind::I), vec![(0, -2), (0, 1), (1, -2), (-2, 1)]);
    assert_eq!(Dir::South.next_sequences(MinoKind::T), vec![(0, 1), (1, 1), (-2, 0), (-2, 1)]);
    assert_eq!(Dir::East.next_sequences(MinoKind::J), vec![(0, -1), (-1, -1), (2, 0), (2, -1)]);
    assert_eq!(Dir::West.next_sequences(MinoKind::S), vec![(0, 1), (-1, 1), (2, 0), (2, 1)]);
    assert_eq!(Dir::North.pre_sequences(MinoKind::I), vec![(0, 2), (0, -1), (-1, 2), (2, -1)]);
    assert_eq!(Dir::North.next_sequences(MinoKind::I), vec![(0, 1), (0, -2), (2, 1), (-1, -2)]);
    assert_eq!(Dir::South.pre_sequences(MinoKind::I), vec![(0, -2), (0, 1), (1, -2), (-2, 1)]);
    assert_eq!(Dir::East.pre_sequences(MinoKind::L), vec![(0, -1), (-1, -1), (2, 0), (2, -1)]);
    assert_eq!(Dir::South.pre_sequences(MinoKind::Z), vec![(0, -1), (1, -1), (-2, 0), (-2, -1)]);
}

#[test]
fn kick_tables_mirror() {
    let kinds = [
        MinoKind::I,
        MinoKind::O,
        MinoKind::S,
        MinoKind::Z,
        MinoKind::J,
        MinoKind::L,
        MinoKind::T,
    ];
    let dirs = [Dir::North, Dir::East, Dir::South, Dir::West];
    for k in kinds.iter() {
        for d in dirs.iter() {
            let right = d.next_sequences(*k);
            let left = d.pre().pre_sequences(*k);
            let negated: Vec<(i32, i32)> = right.iter().map(|(a, b)| (-a, -b)).collect();
            assert_eq!(left, negated);
        }
    }
}

#[test]
fn sizes_shapes_colors() {
    assert_eq!(MinoKind::I.size(), 4);
    assert_eq!(MinoKind::O.size(), 2);
    assert_eq!(MinoKind::T.size(), 3);
    assert_eq!(MinoKind::D.size(), 4);
    assert_eq!(MinoKind::T.color(), Color::Purple);
    assert_eq!(MinoKind::I.color(), Color::Cyan);
    assert_eq!(MinoKind::D.color(), Color::Trans);
    assert!(MinoKind::S.shape(0, 1) && MinoKind::S.shape(0, 2));
    assert!(!MinoKind::S.shape(0, 0));
    assert_eq!(MinoKind::of_index(0), MinoKind::I);
    assert_eq!(MinoKind::of_index(6), MinoKind::T);
}

#[test]
fn rend_mino_turns() {
    let mut c = ControlledMino::new(MinoKind::T);
    assert_eq!(c.pos, (0, 4));
    assert_eq!(
        c.rend_mino(),
        vec![vec![false, true, false], vec![true, true, true], vec![false, false, false]]
    );
    c.dir = Dir::East;
    assert_eq!(
        c.rend_mino(),
        vec![vec![false, true, false], vec![false, true, true], vec![false, true, false]]
    );
    c.dir = Dir::South;
    assert_eq!(
        c.rend_mino(),
        vec![vec![false, false, false], vec![true, true, true], vec![false, true, false]]
    );
    c.dir = Dir::West;
    assert_eq!(
        c.rend_mino(),
        vec![vec![false, true, false], vec![true, true, false], vec![false, true, false]]
    );
    let i = ControlledMino { pos: (0, 0), mino: MinoKind::I, dir: Dir::East };
    let r = i.rend_mino();
    for row in r.iter() {
        assert_eq!(row.clone(), vec![false, false, true, false]);
    }
}

#[test]
fn pos_verify_walls_and_blocks() {
    let mut field = empty_field();
    let c = ControlledMino::new(MinoKind::O);
    assert!(c.pos_verify(&field));
    let against_wall = ControlledMino { pos: (5, 0), mino: MinoKind::O, dir: Dir::North };
    assert!(!against_wall.pos_verify(&field));
    let above_floor = ControlledMino { pos: (19, 5), mino: MinoKind::O, dir: Dir::North };
    assert!(above_floor.pos_verify(&field));
    let in_floor = ControlledMino { pos: (20, 5), mino: MinoKind::O, dir: Dir::North };
    assert!(!in_floor.pos_verify(&field));
    let outside = ControlledMino { pos: (-1, 5), mino: MinoKind::O, dir: Dir::North };
    assert!(!outside.pos_verify(&field));
    field[10][6] = Block::new(true, Color::Red);
    let on_block = ControlledMino { pos: (9, 5), mino: MinoKind::O, dir: Dir::North };
    assert!(!on_block.pos_verify(&field));
    let empty_piece = ControlledMino { pos: (-100, 100), mino: MinoKind::D, dir: Dir::North };
    assert!(empty_piece.pos_verify(&field));
}

#[test]
fn move_mino_moves_or_stays() {
    let field = empty_field();
    let mut c = ControlledMino { pos: (5, 1), mino: MinoKind::O, dir: Dir::North };
    assert!(!c.move_mino(&field, 0, -1));
    assert_eq!(c.pos, (5, 1));
    assert!(c.move_mino(&field, 0, 1));
    assert_eq!(c.pos, (5, 2));
    assert!(c.move_mino(&field, 2, 0));
    assert_eq!(c.pos, (7, 2));
    // Any offset, and back again.
    assert!(c.move_mino(&field, 5, 3));
    assert_eq!(c.pos, (12, 5));
    assert!(c.move_mino(&field, -5, -3));
    assert_eq!(c.pos, (7, 2));
    assert!(!c.move_mino(&field, 0, 20));
    assert_eq!(c.pos, (7, 2));
    let mut bottom = ControlledMino { pos: (19, 5), mino: MinoKind::O, dir: Dir::North };
    assert!(!bottom.move_mino(&field, 1, 0));
    assert_eq!(bottom.pos, (19, 5));
}

#[test]
fn spin_in_place_and_back() {
    let field = empty_field();
    let mut c = ControlledMino { pos: (5, 4), mino: MinoKind::T, dir: Dir::North };
    let before = cells(&c);
    c.spin_right(&field);
    assert_eq!(c.dir, Dir::East);
    assert_eq!(c.pos, (5, 4));
    c.spin_left(&field);
    assert_eq!(c.dir, Dir::North);
    assert_eq!(cells(&c), before);
}

#[test]
fn spin_with_wall_kick() {
    let field = empty_field();
    // Facing East against the left wall: turning to South does not fit in
    // place, and the first kick (one column right) does.
    let mut c = ControlledMino { pos: (5, 0), mino: MinoKind::T, dir: Dir::East };
    assert!(c.pos_verify(&field));
    c.spin_right(&field);
    assert_eq!(c.dir, Dir::South);
    assert_eq!(c.pos, (5, 1));
    assert!(c.pos_verify(&field));
}

#[test]
fn spin_blocked_everywhere_stays() {
    let mut field = empty_field();
    // Fill everything but a vertical shaft one column wide.
    for i in 0..21 {
        for j in 1..11 {
            if j != 5 {
                field[i][j] = Block::new(true, Color::Red);
            }
        }
    }
    let mut c = ControlledMino { pos: (5, 3), mino: MinoKind::I, dir: Dir::East };
    assert!(c.pos_verify(&field));
    c.spin_right(&field);
    assert_eq!(c.dir, Dir::East);
    assert_eq!(c.pos, (5, 3));
    c.spin_left(&field);
    assert_eq!(c.dir, Dir::East);
    assert_eq!(c.pos, (5, 3));
}

#[test]
fn empty_piece_turns_in_place_at_the_edge() {
    let field = empty_field();
    let mut c = ControlledMino { pos: (i32::MAX, i32::MAX), mino: MinoKind::D, dir: Dir::North };
    c.spin_right(&field);
    assert_eq!(c.pos, (i32::MAX, i32::MAX));
    assert_eq!(c.dir, Dir::East);
    c.spin_left(&field);
    assert_eq!(c.pos, (i32::MAX, i32::MAX));
    assert_eq!(c.dir, Dir::North);
    let mut d = ControlledMino { pos: (i32::MIN, i32::MIN), mino: MinoKind::D, dir: Dir::West };
    d.spin_left(&field);
    assert_eq!(d.pos, (i32::MIN, i32::MIN));
    assert_eq!(d.dir, Dir::South);
}
