use tictactoe_xai::board::{Grid, Player, Pos, Tile};
use tictactoe_xai::observation::Observation;
use tictactoe_xai::policy::{
    board_code, choose_action, minimax, minimax_action, minimax_action_with, minimax_probability,
    pick_action, policy_minimax_cached, policy_random, positive_total, random_action, random_action_with,
    MinimaxCache, VALUE_UNIT,
};
use tictactoe_xai::values::UNIT;

fn board(rows: [&str; 3]) -> Grid<Tile> {
    let mut g = Grid::new();
    for (y, row) in rows.iter().enumerate() {
        for (x, c) in row.chars().enumerate() {
            let t = match c {
                'X' => Tile::X,
                'O' => Tile::O,
                _ => Tile::Empty,
            };
            g.set(Pos { x, y }, t);
        }
    }
    g
}

#[test]
fn random_policy_is_uniform_over_empty_cells() {
    let mut p = policy_random();
    let d = p.evaluate(&Grid::new());
    assert_eq!(d.cells, [UNIT / 9; 9]);
    assert_eq!(d.sum(), UNIT);
    let g = board(["X.O", ".X.", "O.."]);
    let d = p.evaluate(&g);
    assert_eq!(d.cells, [0, UNIT / 5, 0, UNIT / 5, 0, UNIT / 5, 0, UNIT / 5, UNIT / 5]);
    assert_eq!(d.sum(), UNIT);
}

#[test]
fn policies_are_zero_on_ended_games() {
    let won = board(["XXX", "OO.", "..."]);
    let full = board(["XOX", "XOO", "OXX"]);
    let mut r = policy_random();
    let mut m = policy_minimax_cached(None, MinimaxCache::new(None));
    for g in [won, full] {
        assert_eq!(r.evaluate(&g).cells, [0; 9]);
        assert_eq!(m.evaluate(&g).cells, [0; 9]);
    }
}

#[test]
fn minimax_distribution_is_valid_mid_game() {
    let mut m = policy_minimax_cached(None, MinimaxCache::new(None));
    let g = board(["X..", ".O.", "..."]);
    let d = m.evaluate(&g);
    assert_eq!(d.sum(), UNIT);
    for i in 0..9 {
        assert!(d.cells[i] >= 0);
        if g.cells[i] != Tile::Empty {
            assert_eq!(d.cells[i], 0);
        }
    }
}

#[test]
fn minimax_empty_board_is_a_draw() {
    let mut cache = MinimaxCache::new(None);
    let g = Grid::new();
    let values = minimax(&g, &mut cache, Player::X, None, 0);
    assert_eq!(values.cells, [0; 9]);
    let (action, value) = minimax_action_with(&g, &mut cache, Player::X, None, 0);
    assert_eq!(value, 0);
    assert_eq!(action, Pos { x: 0, y: 0 });
    let (action, value) = minimax_action(&g, &mut cache, Player::X, None);
    assert_eq!(value, 0);
    assert!(g.check(action));
    let d = minimax_probability(&g, &mut cache, Player::X, None);
    assert_eq!(d.cells, [UNIT / 9; 9]);
}

#[test]
fn minimax_takes_an_immediate_win() {
    let mut cache = MinimaxCache::new(None);
    let g = board(["XX.", "OO.", "..."]);
    let values = minimax(&g, &mut cache, Player::X, None, 0);
    assert_eq!(values.cells[2], VALUE_UNIT);
    let (action, value) = minimax_action_with(&g, &mut cache, Player::X, None, UNIT - 1);
    assert_eq!(action, Pos { x: 2, y: 0 });
    assert_eq!(value, VALUE_UNIT);
    for _ in 0..10 {
        let (action, value) = minimax_action(&g, &mut cache, Player::X, None);
        assert_eq!(action, Pos { x: 2, y: 0 });
        assert_eq!(value, VALUE_UNIT);
    }
}

#[test]
fn minimax_discounts_by_depth() {
    // O must block at the top right; X then wins on its next move wherever O
    // goes, so every O move but the block loses at depth 1 (value -1/2).
    let mut cache = MinimaxCache::new(None);
    let g = board(["XX.", ".O.", "..."]);
    let values = minimax(&g, &mut cache, Player::O, None, 0);
    assert_eq!(values.cells[3], -VALUE_UNIT / 2);
}

#[test]
fn minimax_ply_limit_scores_as_ended() {
    let mut cache = MinimaxCache::new(Some(0));
    let g = Grid::new();
    let values = minimax(&g, &mut cache, Player::X, Some(0), 0);
    assert_eq!(values.cells, [0; 9]);
    assert_eq!(cache.limit(), Some(0));
}

#[test]
fn minimax_policy_picks_the_winning_corner() {
    let g = board([".XO", "XXO", "XO."]);
    assert_eq!(g.current_player(), Some(Player::O));
    let mut m = policy_minimax_cached(None, MinimaxCache::new(None));
    let d = m.evaluate(&g);
    assert_eq!(d.cells, [0, 0, 0, 0, 0, 0, 0, 0, UNIT]);
}

#[test]
fn pick_action_follows_cumulative_weights() {
    let w: Grid<i64> = Grid { cells: [0, 10, 0, 0, 5, 0, 0, 0, 1] };
    assert_eq!(positive_total(&w), 16);
    assert_eq!(pick_action(&w, 0), Pos { x: 1, y: 0 });
    assert_eq!(pick_action(&w, 9), Pos { x: 1, y: 0 });
    assert_eq!(pick_action(&w, 10), Pos { x: 1, y: 1 });
    assert_eq!(pick_action(&w, 15), Pos { x: 2, y: 2 });
    assert_eq!(pick_action(&w, 99), Pos { x: 2, y: 2 });
    assert_eq!(pick_action(&Grid::<i64>::zero(), 3), Pos { x: 0, y: 0 });
}

#[test]
fn choose_action_lands_on_positive_weights() {
    let w: Grid<i64> = Grid { cells: [0, 10, 0, -4, 5, 0, 0, 0, 1] };
    for _ in 0..50 {
        let p = choose_action(&w);
        let i = p.y * 3 + p.x;
        assert!(w.cells[i] > 0);
    }
    assert_eq!(choose_action(&Grid::<i64>::zero()), Pos { x: 0, y: 0 });
}

#[test]
fn random_action_picks_an_empty_cell() {
    let g = board(["XOX", "OXO", "O.X"]);
    assert_eq!(g.current_player(), None);
    let g = board(["XO.", "OXO", "X.."]);
    for draw in [0, UNIT / 3, UNIT - 1] {
        let a = random_action_with(&g, draw);
        assert!(g.check(a));
    }
    assert_eq!(random_action_with(&g, 0), Pos { x: 2, y: 0 });
    assert_eq!(random_action_with(&g, UNIT / 3), Pos { x: 1, y: 2 });
    assert_eq!(random_action_with(&g, UNIT - 1), Pos { x: 2, y: 2 });
    for _ in 0..20 {
        assert!(g.check(random_action(&g)));
    }
}

#[test]
fn board_codes_differ() {
    let a = board(["X..", "...", "..."]);
    let b = board([".X.", "...", "..."]);
    assert_eq!(board_code(&Grid::new()), 0);
    assert_ne!(board_code(&a), board_code(&b));
    assert_eq!(board_code(&board(["...", "...", "..O"])), 2);
}

#[test]
fn full_observation_value_is_the_policy() {
    let g = board(["X..", ".O.", "..X"]);
    let obs = g.full_observation();
    assert_eq!(obs.possible_states(), vec![g]);
    let mut r = policy_random();
    assert_eq!(obs.value(&mut r), r.evaluate(&g));
    let mut m = policy_minimax_cached(None, MinimaxCache::new(None));
    assert_eq!(obs.value(&mut m), m.evaluate(&g));
}

#[test]
fn possible_states_count_digits() {
    let g = board(["X..", "...", "..."]);
    let mut obs = g.full_observation();
    assert!(obs.subtract(Pos { x: 0, y: 0 }));
    assert!(!obs.subtract(Pos { x: 0, y: 0 }));
    assert!(obs.subtract(Pos { x: 2, y: 2 }));
    assert_eq!(obs.positions.len(), 7);
    let states = obs.possible_states();
    assert_eq!(states.len(), 9);
    // digit 0 of the state number sets the first hidden cell (top left)
    assert_eq!(states[1].cells[0], Tile::X);
    assert_eq!(states[1].cells[8], Tile::Empty);
    assert_eq!(states[2].cells[0], Tile::O);
    assert_eq!(states[3].cells[0], Tile::Empty);
    assert_eq!(states[3].cells[8], Tile::X);
    assert_eq!(states[8].cells[0], Tile::O);
    assert_eq!(states[8].cells[8], Tile::O);
}

#[test]
fn marginal_value_averages_completions() {
    // Hiding one cell of a board with X to move: the completions are the board
    // itself, one more X, and one more O.
    let g = board(["X..", ".O.", "..."]);
    let mut obs: Observation = g.full_observation();
    assert!(obs.subtract(Pos { x: 2, y: 2 }));
    let mut r = policy_random();
    let v = obs.value(&mut r);
    let mut expected = [0i64; 9];
    for i in [1usize, 2, 3, 5, 6, 7] {
        expected[i] = (UNIT / 7 + UNIT / 6 + UNIT / 6) / 3;
    }
    expected[8] = (UNIT / 7) / 3;
    assert_eq!(v.cells, expected);
}

#[test]
fn minimax_memo_is_reused() {
    let mut cache = MinimaxCache::new(None);
    let g = board(["X..", ".O.", "..."]);
    let first = minimax(&g, &mut cache, Player::X, None, 2);
    let again = minimax(&g, &mut cache, Player::X, None, 2);
    assert_eq!(first, again);
    // a cache filled under another ply limit is emptied and refilled
    let limited = minimax(&g, &mut cache, Player::X, Some(0), 2);
    assert_eq!(cache.limit(), Some(0));
    assert_eq!(limited.cells, [0; 9]);
}
