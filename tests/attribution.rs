use tictactoe_xai::board::{Grid, Pos, Tile};
use tictactoe_xai::policy::{policy_minimax_cached, policy_random, MinimaxCache};
use tictactoe_xai::shapley::{coalition_size, factorial, powerset, SHAPLEY_SCALE};
use tictactoe_xai::sverl::{predict, Discount, ReturnCache};
use tictactoe_xai::values::UNIT;

fn board(rows: [&str; 3]) -> Grid<Tile> {
    let mut g = Grid::new();
    for (y, row) in rows.iter().enumerate() {
        for (x, c) in row.chars().enumerate() {
            let t = match c {
                'X' => Tile::X,
                'O' => Tile::O,
                _ => Tile::Empty,
            };
            g.set(Pos { x, y }, t);
        }
    }
    g
}

/// The eight symmetries of the board as maps of row-major indices.
fn symmetries() -> Vec<[usize; 9]> {
    let rotate = |i: usize| -> usize {
        let (x, y) = (i % 3, i / 3);
        x * 3 + (2 - y)
    };
    let mirror = |i: usize| -> usize {
        let (x, y) = (i % 3, i / 3);
        y * 3 + (2 - x)
    };
    let mut out = Vec::new();
    for m in 0..2 {
        for r in 0..4 {
            let mut map = [0usize; 9];
            for i in 0..9 {
                let mut j = i;
                if m == 1 {
                    j = mirror(j);
                }
                for _ in 0..r {
                    j = rotate(j);
                }
                map[i] = j;
            }
            out.push(map);
        }
    }
    out
}

#[test]
fn factorial_values() {
    assert_eq!(factorial(0), 1);
    assert_eq!(factorial(1), 1);
    assert_eq!(factorial(5), 120);
    assert_eq!(factorial(9), 362880);
    assert_eq!(factorial(9) as i64, SHAPLEY_SCALE);
}

#[test]
fn powerset_order() {
    let p = powerset(&[1, 2, 3]);
    assert_eq!(p.len(), 8);
    assert_eq!(p[0], vec![1, 2, 3]);
    assert_eq!(p[1], vec![2, 3]);
    assert_eq!(p[2], vec![1, 3]);
    assert_eq!(p[5], vec![2]);
    assert_eq!(p[7], Vec::<i32>::new());
    assert_eq!(powerset::<u8>(&[]), vec![Vec::<u8>::new()]);
}

#[test]
fn all_subsets_enumerates_every_coalition() {
    let g = Grid::new();
    let subsets = g.all_subsets();
    assert_eq!(subsets.len(), 512);
    assert_eq!(subsets[0].positions.len(), 9);
    assert_eq!(subsets[1].positions.len(), 8);
    assert_eq!(subsets[511].positions.len(), 0);
    let mut seen = std::collections::BTreeSet::new();
    for s in &subsets {
        assert_eq!(s.grid, g);
        let mut key: Vec<(usize, usize)> = s.positions.iter().map(|p| (p.x, p.y)).collect();
        key.sort();
        assert!(seen.insert(key));
    }
    assert_eq!(seen.len(), 512);
}

#[test]
fn coalitions_observe_their_bits() {
    let g = board(["X..", "...", "..."]);
    let c = g.coalition(0b100000101);
    assert_eq!(c.positions, vec![Pos { x: 0, y: 0 }, Pos { x: 2, y: 0 }, Pos { x: 2, y: 2 }]);
    assert_eq!(c.possible_states().len(), 729);
    assert_eq!(coalition_size(0b100000101), 3);
    assert_eq!(coalition_size(511), 9);
}

#[test]
fn shapley_efficiency_random_empty_board() {
    let g = Grid::new();
    let mut p = policy_random();
    let phi = g.shapley(&mut p);
    let full = g.full_observation().value(&mut p);
    let none = g.coalition(0).value(&mut p);
    for a in 0..9 {
        let total: i64 = (0..9).map(|f| phi.cells[f].cells[a]).sum();
        assert_eq!(total, SHAPLEY_SCALE * (full.cells[a] - none.cells[a]));
    }
}

#[test]
fn shapley_efficiency_minimax_mid_game() {
    let g = board(["X..", ".O.", "..."]);
    let mut p = policy_minimax_cached(None, MinimaxCache::new(None));
    let phi = g.shapley(&mut p);
    let full = g.full_observation().value(&mut p);
    let none = g.coalition(0).value(&mut p);
    assert_eq!(full, p.evaluate(&g));
    for a in 0..9 {
        let total: i64 = (0..9).map(|f| phi.cells[f].cells[a]).sum();
        assert_eq!(total, SHAPLEY_SCALE * (full.cells[a] - none.cells[a]));
    }
}

#[test]
fn shapley_random_empty_board_is_symmetric() {
    let g = Grid::new();
    let mut p = policy_random();
    let phi = g.shapley(&mut p);
    for map in symmetries() {
        for f in 0..9 {
            for a in 0..9 {
                assert_eq!(phi.cells[f].cells[a], phi.cells[map[f]].cells[map[a]]);
            }
        }
    }
    // the corners share one attribution, the edges another
    assert_eq!(phi.cells[0].cells[0], phi.cells[8].cells[8]);
    assert_eq!(phi.cells[1].cells[1], phi.cells[5].cells[5]);
    assert_eq!(phi.cells[4].cells[0], phi.cells[4].cells[2]);
}

#[test]
fn predict_immediate_win() {
    // X to move with one cell left, and that cell wins.
    let g = board(["XXO", "OOX", "XO."]);
    assert_eq!(g.winner(), None);
    let mut p = policy_random();
    let mut cache = ReturnCache::new();
    let half = Discount { num: 1, den: 2 };
    assert_eq!(predict(&g, &mut cache, 0, half, &mut p), 0);
    // X to move on three cells; the top right wins at once. The return of the
    // board that follows a move is added as it stands, discounted.
    let g = board(["XX.", "OO.", "XO."]);
    let mut cache = ReturnCache::new();
    let v = predict(&g, &mut cache, 0, Discount { num: 1, den: 1 }, &mut p);
    assert_eq!(v, 2 * UNIT / 3);
    let mut cache = ReturnCache::new();
    let v0 = predict(&g, &mut cache, 0, Discount { num: 0, den: 1 }, &mut p);
    assert_eq!(v0, UNIT / 3);
    let mut cache = ReturnCache::new();
    let v_half = predict(&g, &mut cache, 0, Discount { num: 1, den: 2 }, &mut p);
    assert_eq!(v_half, 11 * UNIT / 24);
}

#[test]
fn predict_one_move_left() {
    let g = board(["XOX", "OOX", "XX."]);
    assert_eq!(g.current_player(), Some(tictactoe_xai::board::Player::O));
    let mut p = policy_random();
    let mut cache = ReturnCache::new();
    // O's last move completes nothing: the game ends in a draw.
    assert_eq!(predict(&g, &mut cache, 0, Discount { num: 1, den: 2 }, &mut p), 0);
    let g = board(["XOX", "XO.", "OXX"]);
    assert_eq!(g.current_player(), Some(tictactoe_xai::board::Player::O));
    let mut cache = ReturnCache::new();
    assert_eq!(predict(&g, &mut cache, 0, Discount { num: 1, den: 2 }, &mut p), 0);
}

#[test]
fn sverl_is_zero_on_ended_games() {
    let won = board(["XXX", "OO.", "..."]);
    let mut p = policy_random();
    let r = won.sverl(false, Discount { num: 1, den: 2 }, &mut p);
    assert_eq!(r.cells, [0; 9]);
}

#[test]
fn sverl_local_and_global_agree_with_one_empty_cell() {
    let g = board(["XXO", "OO.", "XOX"]);
    assert!(g.current_player().is_some());
    let mut p = policy_random();
    for gamma in [Discount { num: 0, den: 1 }, Discount { num: 1, den: 2 }] {
        let local = g.sverl(false, gamma, &mut p);
        let global = g.sverl(true, gamma, &mut p);
        assert_eq!(local, global);
    }
}

#[test]
fn sverl_local_random_near_end() {
    // X to move with two cells left: the top right wins.
    let g = board(["XX.", "OOX", "XO."]);
    let mut p = policy_random();
    let r = g.sverl(false, Discount { num: 1, den: 2 }, &mut p);
    let total: i64 = r.cells.iter().sum();
    assert!(total != 0);
    let again = g.sverl(false, Discount { num: 1, den: 2 }, &mut p);
    assert_eq!(r, again);
}
