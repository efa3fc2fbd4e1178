use tetris_lib::game::{Block, Game, Gravity};
use tetris_lib::generator::MinoGenerator;
use tetris_lib::mino::{Color, MinoKind};

const NONE: [bool; 7] = [false; 7];
const HARD_DROP: [bool; 7] = [false, false, true, false, false, false, false];
const RIGHT: [bool; 7] = [false, false, false, false, true, false, false];
const LEFT: [bool; 7] = [false, false, false, false, false, true, false];
const HOLD: [bool; 7] = [false, false, false, false, false, false, true];
const TURN_RIGHT: [bool; 7] = [true, false, false, false, false, false, false];
const TURN_LEFT: [bool; 7] = [false, true, false, false, false, false, false];

fn step(game: &mut Game, keys: [bool; 7]) {
    assert!(game.can_clock(keys));
    game.clock(keys);
}

fn piece_cells(field: &[[Block; 10]; 20]) -> Vec<(usize, usize, Color)> {
    let mut out = Vec::new();
    for (i, row) in field.iter().enumerate() {
        for (j, b) in row.iter().enumerate() {
            if b.is_filled() && b.get_color() != Color::Trans {
                out.push((i, j, b.get_color()));
            }
        }
    }
    out
}

fn ghost_cells(field: &[[Block; 10]; 20]) -> Vec<(usize, usize)> {
    let mut out = Vec::new();
    for (i, row) in field.iter().enumerate() {
        for (j, b) in row.iter().enumerate() {
            if !b.is_filled() && b.get_color() == Color::Gray {
                out.push((i, j));
            }
        }
    }
    out
}

fn preview_color(grid: &Vec<Vec<Block>>) -> Option<Color> {
    let mut color = None;
    let mut n = 0;
    for row in grid.iter() {
        for b in row.iter() {
            if b.is_filled() {
                n += 1;
                color = Some(b.get_color());
            }
        }
    }
    if n == 0 {
        None
    } else {
        assert_eq!(n, 4);
        color
    }
}

#[test]
fn new_game() {
    let _ = Game::new();
}

#[test]
fn new_game_state() {
    let mut game = Game::new();
    assert_eq!(game.get_score(), 0);
    assert_eq!(game.get_clearlines(), 0);
    assert!(!game.is_gameover());
    assert!(game.can_use_hold());
    assert_eq!(game.get_interval_ratio(), (0, 20));
    assert!(game.can_rend_field());
    let field = game.rend_field();
    let cells = piece_cells(&field);
    // The piece spawns across the hidden top row and the first visible one,
    // in the middle columns.
    assert!(2 <= cells.len() && cells.len() <= 4);
    for (i, j, _) in cells.iter() {
        assert_eq!(*i, 0);
        assert!(3 <= *j && *j <= 6);
    }
    // Its landing place is drawn at the bottom of the empty board.
    let ghost = ghost_cells(&field);
    assert_eq!(ghost.len(), 4);
    assert!(ghost.iter().any(|(i, _)| *i == 19));
    for (i, _) in ghost.iter() {
        assert!(*i >= 18);
    }
    // Nothing else is on the board.
    for row in field.iter() {
        for b in row.iter() {
            assert!(!b.is_clearing());
        }
    }
    // Rendering does not change the game.
    assert_eq!(game.rend_field(), field);
}

#[test]
fn first_pieces_are_different() {
    let mut game = Game::new();
    let field = game.rend_field();
    let current = piece_cells(&field)[0].2;
    let mut colors = vec![current];
    for k in 0..3 {
        let c = preview_color(&game.rend_next(k)).unwrap();
        assert!(!colors.contains(&c));
        colors.push(c);
    }
    assert_eq!(preview_color(&game.rend_next(3)), None);
    assert_eq!(preview_color(&game.rend_hold()), None);
}

#[test]
fn hard_drop_scores_rows_fallen() {
    let mut game = Game::new();
    step(&mut game, HARD_DROP);
    // Every piece's lowest cell starts in row 1 and falls to row 20.
    assert_eq!(game.get_score(), 19);
    assert_eq!(game.get_interval_ratio(), (0, 20));
    assert!(!game.is_gameover());
    let field = game.rend_field();
    let cells = piece_cells(&field);
    assert_eq!(cells.len(), 4);
    assert!(cells.iter().any(|(i, _, _)| *i == 19));
    assert!(ghost_cells(&field).is_empty());
}

#[test]
fn pause_after_fix_then_next_piece() {
    let mut game = Game::new();
    let next_color = preview_color(&game.rend_next(2)).unwrap();
    step(&mut game, HARD_DROP);
    for f in 1..=21u32 {
        step(&mut game, RIGHT);
        assert_eq!(game.get_interval_ratio(), (f, 20));
    }
    // Keys are ignored during the pause.
    assert_eq!(game.get_score(), 19);
    step(&mut game, NONE);
    assert_eq!(game.get_interval_ratio(), (0, 20));
    assert!(game.can_use_hold());
    let field = game.rend_field();
    let cells = piece_cells(&field);
    // The fixed piece at the bottom, the new piece at the top.
    assert_eq!(cells.iter().filter(|(i, _, _)| *i >= 18).count(), 4);
    let top: Vec<_> = cells.iter().filter(|(i, _, _)| *i <= 1).collect();
    assert!(top.len() >= 2);
    assert!(top.iter().all(|(_, _, c)| *c == next_color));
    assert!(preview_color(&game.rend_next(2)).is_some());
}

#[test]
fn moves_right_and_left() {
    let mut game = Game::new();
    step(&mut game, NONE);
    let before = piece_cells(&game.rend_field());
    step(&mut game, RIGHT);
    let after = piece_cells(&game.rend_field());
    for ((i0, j0, _), (i1, j1, _)) in before.iter().zip(after.iter()) {
        assert_eq!(i0, i1);
        assert_eq!(*j1, j0 + 1);
    }
    step(&mut game, LEFT);
    assert_eq!(piece_cells(&game.rend_field()), before);
    // The wall stops the piece.
    for _ in 0..12 {
        step(&mut game, LEFT);
    }
    let at_wall = piece_cells(&game.rend_field());
    assert!(at_wall.iter().any(|(_, j, _)| *j == 0));
}

#[test]
fn turn_right_then_left_restores() {
    let mut game = Game::new();
    step(&mut game, NONE);
    let before = piece_cells(&game.rend_field());
    step(&mut game, TURN_RIGHT);
    step(&mut game, TURN_LEFT);
    assert_eq!(piece_cells(&game.rend_field()), before);
}

#[test]
fn hold_swaps_once_per_piece() {
    let mut game = Game::new();
    let current = piece_cells(&game.rend_field())[0].2;
    let front = preview_color(&game.rend_next(2)).unwrap();
    step(&mut game, HOLD);
    assert!(!game.can_use_hold());
    assert_eq!(preview_color(&game.rend_hold()), Some(current));
    let now = piece_cells(&game.rend_field());
    assert_eq!(now.len(), 4);
    assert!(now.iter().all(|(_, _, c)| *c == front));
    // A second hold on the same piece does nothing.
    step(&mut game, HOLD);
    assert_eq!(preview_color(&game.rend_hold()), Some(current));
    assert_eq!(piece_cells(&game.rend_field()), now);
    // After the piece is fixed and the next one starts, hold is available
    // again, and it brings back the held piece.
    step(&mut game, HARD_DROP);
    for _ in 0..22 {
        step(&mut game, NONE);
    }
    assert!(game.can_use_hold());
    step(&mut game, HOLD);
    let back = piece_cells(&game.rend_field());
    assert!(back.iter().filter(|(i, _, _)| *i <= 2).all(|(_, _, c)| *c == current));
}

#[test]
fn gravity_starts_slow() {
    let g = Gravity::new();
    assert_eq!(g.reciprocal, 45);
    assert_eq!(g.drop_limit, 900);
    assert!(!g.fix_flag);
}

#[test]
fn gravity_moves_piece_every_45_frames() {
    let mut game = Game::new();
    let start = piece_cells(&game.rend_field());
    step(&mut game, NONE);
    let after_one = piece_cells(&game.rend_field());
    assert_eq!(after_one.len(), 4);
    assert!(after_one.iter().all(|(i, _, _)| *i <= 1));
    assert!(after_one.iter().any(|(i, _, _)| *i == 1));
    assert!(start.len() <= after_one.len());
    for _ in 0..44 {
        step(&mut game, NONE);
    }
    assert_eq!(piece_cells(&game.rend_field()), after_one);
    step(&mut game, NONE);
    let after_two = piece_cells(&game.rend_field());
    for ((i0, j0, _), (i1, j1, _)) in after_one.iter().zip(after_two.iter()) {
        assert_eq!(*i1, i0 + 1);
        assert_eq!(j0, j1);
    }
}

#[test]
fn seven_deals_are_seven_kinds() {
    let mut g = MinoGenerator::new();
    let mut seen: Vec<MinoKind> = Vec::new();
    for _ in 0..7 {
        let k = g.generate();
        assert!(k != MinoKind::D);
        assert!(!seen.contains(&k));
        seen.push(k);
    }
    assert_eq!(g.round_count(), 1);
    let mut second: Vec<MinoKind> = Vec::new();
    for _ in 0..7 {
        let k = g.generate();
        assert!(!second.contains(&k));
        second.push(k);
    }
    assert_eq!(g.round_count(), 2);
}

#[test]
fn every_round_of_seven_is_complete() {
    let mut g = MinoGenerator::new();
    for round in 0..10u32 {
        let mut seen: Vec<MinoKind> = Vec::new();
        for _ in 0..7 {
            let k = g.generate();
            assert!(k != MinoKind::D);
            assert!(!seen.contains(&k));
            seen.push(k);
        }
        assert_eq!(seen.len(), 7);
        assert_eq!(g.round_count(), round + 1);
    }
}

#[test]
fn deal_by_index() {
    let mut g = MinoGenerator::new();
    assert_eq!(g.round_count(), 0);
    assert_eq!(g.deal(3), MinoKind::Z);
    assert_eq!(g.round_count(), 1);
    assert_eq!(g.deal(0), MinoKind::I);
    assert_eq!(g.deal(6), MinoKind::T);
    // The rest of the round comes from the four kinds not yet dealt.
    for _ in 0..4 {
        let k = g.generate();
        assert!(k == MinoKind::O || k == MinoKind::S || k == MinoKind::J || k == MinoKind::L);
    }
    assert_eq!(g.round_count(), 1);
    g.generate();
    assert_eq!(g.round_count(), 2);
}

#[test]
fn play_until_over() {
    // A simple player: each piece is moved a different number of columns,
    // then dropped. Scores never fall, cleared lines are scored.
    let mut game = Game::new();
    let table = [0u32, 100, 300, 600, 900];
    let mut frames = 0u32;
    let mut piece = 0u32;
    while !game.is_gameover() && frames < 20000 {
        let score0 = game.get_score();
        let lines0 = game.get_clearlines();
        let shift = (piece % 9) as usize;
        for s in 0..shift {
            if game.get_interval_ratio().0 != 0 || game.is_gameover() {
                break;
            }
            step(&mut game, if s % 2 == 0 { LEFT } else { RIGHT });
            frames += 1;
        }
        if game.is_gameover() {
            break;
        }
        let before_drop = game.get_score();
        step(&mut game, HARD_DROP);
        frames += 1;
        let gained = game.get_score() - before_drop;
        let cleared = game.get_clearlines() - lines0;
        assert!(cleared <= 4);
        assert!(gained >= table[cleared as usize]);
        assert!(game.get_score() >= score0);
        assert!(game.can_rend_field());
        let field = game.rend_field();
        if cleared > 0 {
            let clearing = field.iter().filter(|row| row.iter().all(|b| b.is_clearing())).count();
            assert_eq!(clearing as u32, cleared);
        }
        for _ in 0..22 {
            step(&mut game, NONE);
            frames += 1;
        }
        if game.can_rend_field() {
            let field = game.rend_field();
            for row in field.iter() {
                assert!(row.iter().all(|b| !b.is_clearing()));
            }
        }
        piece += 1;
    }
    assert!(game.is_gameover() || frames >= 20000);
}


#[test]
fn holding_the_empty_piece_is_guarded() {
    // Hard drop and hold in one frame: the piece is fixed first, so the hold
    // slot takes the empty placeholder piece.
    let mut game = Game::new();
    let both = [false, false, true, false, false, false, true];
    step(&mut game, both);
    assert_eq!(preview_color(&game.rend_hold()), None);
    assert!(!game.can_use_hold());
    for _ in 0..22 {
        step(&mut game, NONE);
    }
    assert!(game.can_use_hold());
    // Swapping it back in makes the empty piece the falling one: it has no
    // landing place, so neither drawing nor a hard drop may go on.
    step(&mut game, HOLD);
    assert!(!game.is_gameover());
    assert!(!game.can_rend_field());
    assert!(!game.can_clock(HARD_DROP));
    assert!(game.can_clock(NONE));
    assert!(preview_color(&game.rend_hold()).is_some());
}

#[test]
fn no_lines_no_points_in_pause() {
    let mut game = Game::new();
    step(&mut game, HARD_DROP);
    assert_eq!(game.get_clearlines(), 0);
    let field = game.rend_field();
    for row in field.iter() {
        assert!(row.iter().all(|b| !b.is_clearing()));
    }
}

#[test]
fn pause_ignores_all_keys_then_queue_advances() {
    let mut game = Game::new();
    step(&mut game, HARD_DROP);
    for _ in 0..21 {
        step(&mut game, [true; 7]);
    }
    assert_eq!(game.get_interval_ratio(), (21, 20));
    assert_eq!(game.get_score(), 19);
    assert_eq!(game.get_clearlines(), 0);
    assert!(game.can_use_hold());
    assert_eq!(preview_color(&game.rend_hold()), None);
    let n0 = game.rend_next(0);
    let n1 = game.rend_next(1);
    step(&mut game, NONE);
    assert_eq!(game.get_interval_ratio(), (0, 20));
    assert!(!game.is_gameover());
    assert!(game.can_use_hold());
    assert_eq!(game.get_score(), 19);
    assert_eq!(game.rend_next(1), n0);
    assert_eq!(game.rend_next(2), n1);
}
