use tictactoe_xai::board::{Grid, Player, Pos, Tile};

fn board(rows: [&str; 3]) -> Grid<Tile> {
    let mut g = Grid::new();
    for (y, row) in rows.iter().enumerate() {
        for (x, c) in row.chars().enumerate() {
            let t = match c {
                'X' => Tile::X,
                'O' => Tile::O,
                _ => Tile::Empty,
            };
            g.set(Pos { x, y }, t);
        }
    }
    g
}

#[test]
fn player_next_alternates() {
    assert_eq!(Player::X.next(), Player::O);
    assert_eq!(Player::O.next(), Player::X);
}

#[test]
fn tile_from_player() {
    assert_eq!(Tile::from(Player::X), Tile::X);
    assert_eq!(Tile::from(Player::O), Tile::O);
}

#[test]
fn get_and_set_ignore_out_of_bounds() {
    let mut g = Grid::new();
    g.set(Pos { x: 1, y: 2 }, Tile::O);
    assert_eq!(g.get(Pos { x: 1, y: 2 }), Some(&Tile::O));
    assert_eq!(g.cells[7], Tile::O);
    let before = g;
    g.set(Pos { x: 3, y: 0 }, Tile::X);
    g.set(Pos { x: 0, y: 3 }, Tile::X);
    assert_eq!(g, before);
    assert_eq!(g.get(Pos { x: 3, y: 0 }), None);
    assert_eq!(g.get(Pos { x: 0, y: 5 }), None);
}

#[test]
fn check_is_a_legal_move_test() {
    let g = board(["X..", "...", "..."]);
    assert!(!g.check(Pos { x: 0, y: 0 }));
    assert!(g.check(Pos { x: 1, y: 0 }));
    assert!(!g.check(Pos { x: 3, y: 0 }));
}

#[test]
fn positions_are_row_major() {
    let g = Grid::new();
    let p = g.positions();
    assert_eq!(p.len(), 9);
    assert_eq!(p[0], Pos { x: 0, y: 0 });
    assert_eq!(p[1], Pos { x: 1, y: 0 });
    assert_eq!(p[3], Pos { x: 0, y: 1 });
    assert_eq!(p[8], Pos { x: 2, y: 2 });
}

#[test]
fn winner_rows_columns_diagonals() {
    assert_eq!(board(["XXX", "OO.", "..."]).winner(), Some(Player::X));
    assert_eq!(board(["X.X", "OOO", "X.."]).winner(), Some(Player::O));
    assert_eq!(board(["OX.", "OX.", ".X."]).winner(), Some(Player::X));
    assert_eq!(board(["O.X", ".OX", "X.O"]).winner(), Some(Player::O));
    assert_eq!(board(["..X", ".X.", "XOO"]).winner(), Some(Player::X));
    assert_eq!(board(["XOX", "XOO", "OXX"]).winner(), None);
    assert_eq!(Grid::new().winner(), None);
}

#[test]
fn winner_prefers_rows_then_x() {
    // Two completed rows: the top one is found first.
    assert_eq!(board(["OOO", "XXX", "..."]).winner(), Some(Player::O));
}

#[test]
fn current_player_alternates_and_stops() {
    assert_eq!(Grid::new().current_player(), Some(Player::X));
    assert_eq!(board(["X..", "...", "..."]).current_player(), Some(Player::O));
    assert_eq!(board(["X..", ".O.", "..."]).current_player(), Some(Player::X));
    assert_eq!(board(["XXX", "OO.", "..."]).current_player(), None);
    assert_eq!(board(["XOX", "XOO", "OXX"]).current_player(), None);
}

#[test]
fn reward_is_signed_by_winner() {
    let won = board(["XXX", "OO.", "..."]);
    assert_eq!(won.reward(Player::X), 1);
    assert_eq!(won.reward(Player::O), -1);
    assert_eq!(Grid::new().reward(Player::X), 0);
}

#[test]
fn empty_positions_in_order() {
    let g = board(["X.O", ".X.", "OX."]);
    let e = g.empty_positions();
    assert_eq!(
        e,
        vec![Pos { x: 1, y: 0 }, Pos { x: 0, y: 1 }, Pos { x: 2, y: 1 }, Pos { x: 2, y: 2 }]
    );
    assert_eq!(g.count(Tile::X), 3);
    assert_eq!(g.count(Tile::O), 2);
}

#[test]
fn from_fn_fills_each_position() {
    let g: Grid<usize> = Grid::from_fn(|p: Pos| p.y * 10 + p.x);
    assert_eq!(g.cells, [0, 1, 2, 10, 11, 12, 20, 21, 22]);
}

#[test]
fn value_grid_arithmetic() {
    let a: Grid<i64> = Grid { cells: [1, 2, 3, 4, 5, 6, 7, 8, 9] };
    let b: Grid<i64> = Grid { cells: [9, 8, 7, 6, 5, 4, 3, 2, 1] };
    assert_eq!(a.add(&b).cells, [10; 9]);
    assert_eq!(a.sub(&b).cells, [-8, -6, -4, -2, 0, 2, 4, 6, 8]);
    assert_eq!(a.sum(), 45);
    let mut c = a;
    c.mul_assign(-2);
    assert_eq!(c.cells, [-2, -4, -6, -8, -10, -12, -14, -16, -18]);
    assert_eq!(Grid::<i64>::zero().sum(), 0);
}

#[test]
fn normalize_scales_to_unit() {
    let unit = tictactoe_xai::values::UNIT;
    let w: Grid<i64> = Grid { cells: [1, 0, 1, 0, 2, 0, 0, 0, 0] };
    let n = w.normalize();
    assert_eq!(n.cells, [unit / 4, 0, unit / 4, 0, unit / 2, 0, 0, 0, 0]);
    assert_eq!(n.sum(), unit);
    let z = Grid::<i64>::zero();
    assert_eq!(z.normalize(), z);
}

#[test]
fn normalize_handles_signed_grids() {
    let unit = tictactoe_xai::values::UNIT;
    let w: Grid<i64> = Grid { cells: [2, -1, 0, 0, 0, 0, 0, 0, 0] };
    assert_eq!(w.normalize().cells, [2 * unit, -unit, 0, 0, 0, 0, 0, 0, 0]);
    let w: Grid<i64> = Grid { cells: [-1, -1, 0, 0, 0, 0, 0, 0, 0] };
    assert_eq!(w.normalize().cells, [unit / 2, unit / 2, 0, 0, 0, 0, 0, 0, 0]);
    let w: Grid<i64> = Grid { cells: [1, -1, 3, -3, 0, 0, 0, 0, 0] };
    assert_eq!(w.normalize(), w);
    let w: Grid<i64> = Grid { cells: [1, 1, 1, 0, 0, 0, 0, 0, 0] };
    assert_eq!(w.normalize().cells, [unit / 3, unit / 3, unit / 3, 0, 0, 0, 0, 0, 0]);
}
