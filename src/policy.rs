use vstd::prelude::*;

use std::collections::BTreeMap;

use crate::board::{
    count_of, current_player_spec, next_spec, pos_of, position_at, reward_spec, tile_of, Grid, Player,
    Pos, Tile, CELLS,
};
use crate::values::{normalized, nonneg, bounded, total, UNIT, WEIGHT_BOUND};

verus! {

/// Minimax values are integer multiples of `1 / VALUE_UNIT`; 2520 is divisible by
/// every depth discount `depth + 1` from 1 to 10.
pub const VALUE_UNIT: i64 = 2520;

/// Number of empty cells, written out cell by cell.
pub open spec fn empty_count(s: Seq<Tile>) -> nat {
    (if s[0] == Tile::Empty { 1nat } else { 0nat }) + (if s[1] == Tile::Empty { 1nat } else { 0nat })
        + (if s[2] == Tile::Empty { 1nat } else { 0nat }) + (if s[3] == Tile::Empty { 1nat } else { 0nat })
        + (if s[4] == Tile::Empty { 1nat } else { 0nat }) + (if s[5] == Tile::Empty { 1nat } else { 0nat })
        + (if s[6] == Tile::Empty { 1nat } else { 0nat }) + (if s[7] == Tile::Empty { 1nat } else { 0nat })
        + (if s[8] == Tile::Empty { 1nat } else { 0nat })
}

/// Whether the search stops at `depth` under the ply limit.
pub open spec fn cut_off(limit: Option<usize>, depth: int) -> bool {
    match limit {
        Some(l) => depth >= l,
        None => false,
    }
}

/// The value of an ended game for the player who just moved, discounted by depth.
pub open spec fn terminal_value(reward: int, depth: int) -> int {
    reward * (VALUE_UNIT as int / (depth + 1))
}

/// The minimax value for `p` of playing cell `a` on board `s` at `depth`: zero for
/// an occupied cell; the discounted reward when the move ends the game or the
/// ply limit is reached; otherwise the negated best value of the opponent.
pub open spec fn action_value(s: Seq<Tile>, p: Player, limit: Option<usize>, depth: int, a: int) -> int
    decreases empty_count(s), 0nat,
{
    if s.len() != 9 || !(0 <= a < 9) || s[a] != Tile::Empty || depth < 0 {
        0
    } else {
        let t = s.update(a, tile_of(p));
        let r = reward_spec(t, p);
        if r != 0 || cut_off(limit, depth) {
            terminal_value(r, depth)
        } else {
            match node_best(t, next_spec(p), limit, depth + 1, 9) {
                Some(v) => -v,
                None => 0,
            }
        }
    }
}

/// The largest `action_value` over the empty cells among the first `n`.
pub open spec fn node_best(s: Seq<Tile>, p: Player, limit: Option<usize>, depth: int, n: int) -> Option<int>
    decreases empty_count(s), n + 1,
{
    if n <= 0 || s.len() != 9 || n > 9 {
        None
    } else {
        let rest = node_best(s, p, limit, depth, n - 1);
        if s[n - 1] == Tile::Empty {
            let v = action_value(s, p, limit, depth, n - 1);
            match rest {
                None => Some(v),
                Some(m) => Some(if v > m { v } else { m }),
            }
        } else {
            rest
        }
    }
}

/// The largest of `v` over the empty cells among the first `n`.
pub open spec fn best_of(s: Seq<Tile>, v: Seq<i64>, n: int) -> Option<int>
    decreases n,
{
    if n <= 0 {
        None
    } else {
        let rest = best_of(s, v, n - 1);
        if s[n - 1] == Tile::Empty {
            match rest {
                None => Some(v[n - 1] as int),
                Some(m) => Some(if v[n - 1] > m { v[n - 1] as int } else { m }),
            }
        } else {
            rest
        }
    }
}

/// The cells whose value is the best over the legal moves.
pub open spec fn best_indicator(s: Seq<Tile>, v: Seq<int>, best: int) -> Seq<i64> {
    Seq::new(9, |a: int| if s[a] == Tile::Empty && v[a] == best { 1i64 } else { 0i64 })
}

/// The minimax values of all nine cells.
pub open spec fn minimax_values(s: Seq<Tile>, p: Player, limit: Option<usize>, depth: int) -> Seq<int> {
    Seq::new(9, |a: int| action_value(s, p, limit, depth, a))
}

/// The minimax distribution: equal shares over the best legal moves.
pub open spec fn minimax_dist(s: Seq<Tile>, p: Player, limit: Option<usize>) -> Seq<i64> {
    let best = match node_best(s, p, limit, 0, 9) {
        Some(b) => b,
        None => 0,
    };
    normalized(best_indicator(s, minimax_values(s, p, limit, 0), best))
}

/// The uniform distribution over the empty cells of a board where a player is
/// to move; all zero once the game is over.
pub open spec fn random_dist(s: Seq<Tile>) -> Seq<i64> {
    let k = count_of(s, Tile::Empty, 9);
    Seq::new(
        9,
        |a: int|
            if current_player_spec(s).is_some() && s[a] == Tile::Empty {
                (UNIT as int / k) as i64
            } else {
                0i64
            },
    )
}

/// Digit of a cell in the board code.
pub open spec fn digit(t: Tile) -> int {
    match t {
        Tile::Empty => 0,
        Tile::X => 1,
        Tile::O => 2,
    }
}

/// The first `n` cells read as a base-3 number, most significant first.
pub open spec fn code_upto(s: Seq<Tile>, n: int) -> int
    decreases n,
{
    if n <= 0 {
        0
    } else {
        code_upto(s, n - 1) * 3 + digit(s[n - 1])
    }
}

pub open spec fn pow3(n: nat) -> int
    decreases n,
{
    if n == 0 {
        1
    } else {
        3 * pow3((n - 1) as nat)
    }
}

pub proof fn lemma_code_bound(s: Seq<Tile>, n: int)
    requires
        0 <= n,
    ensures
        0 <= code_upto(s, n) < pow3(n as nat),
    decreases n,
{
    if n > 0 {
        lemma_code_bound(s, n - 1);
    }
}

pub proof fn lemma_code_injective(s: Seq<Tile>, t: Seq<Tile>, n: int)
    requires
        0 <= n,
        code_upto(s, n) == code_upto(t, n),
    ensures
        forall|i: int| 0 <= i < n ==> s[i] == t[i],
    decreases n,
{
    if n > 0 {
        let a = code_upto(s, n - 1);
        let b = code_upto(t, n - 1);
        let da = digit(s[n - 1]);
        let db = digit(t[n - 1]);
        assert(a == b && da == db) by (nonlinear_arith)
            requires a * 3 + da == b * 3 + db, 0 <= da < 3, 0 <= db < 3;
        lemma_code_injective(s, t, n - 1);
    }
}

/// The deepest ply of a search: a board has nine cells, so the depth plus the
/// number of empty cells never exceeds nine.
pub const MAX_DEPTH: usize = 9;

/// The memo key of a board, a mover and a depth.
pub open spec fn memo_key(s: Seq<Tile>, p: Player, depth: int) -> int {
    (depth * 2 + if p == Player::X { 0int } else { 1int }) * 19683 + code_upto(s, 9)
}

pub proof fn lemma_memo_key_injective(s: Seq<Tile>, p: Player, d: int, t: Seq<Tile>, q: Player, e: int)
    requires
        s.len() == 9,
        t.len() == 9,
        0 <= d,
        0 <= e,
        memo_key(s, p, d) == memo_key(t, q, e),
    ensures
        s == t,
        p == q,
        d == e,
{
    lemma_code_bound(s, 9);
    lemma_code_bound(t, 9);
    reveal_with_fuel(pow3, 10);
    assert(pow3(9) == 19683);
    let x = d * 2 + if p == Player::X { 0int } else { 1int };
    let y = e * 2 + if q == Player::X { 0int } else { 1int };
    let cs = code_upto(s, 9);
    let ct = code_upto(t, 9);
    assert(x == y && cs == ct) by (nonlinear_arith)
        requires x * 19683 + cs == y * 19683 + ct, 0 <= cs < 19683, 0 <= ct < 19683;
    lemma_code_injective(s, t, 9);
    assert(s =~= t);
}


/// The memo key as stored.
pub open spec fn key_of(s: Seq<Tile>, p: Player, depth: int) -> u64 {
    memo_key(s, p, depth) as u64
}

/// Whether `v` holds the minimax values of board `s` for mover `p` at `depth`.
pub open spec fn values_match(v: Seq<i64>, s: Seq<Tile>, p: Player, limit: Option<usize>, depth: int) -> bool {
    forall|a: int|
        0 <= a < 9 ==> #[trigger] v[a] == action_value(s, p, limit, depth, a) && -VALUE_UNIT <= v[a]
            <= VALUE_UNIT
}

/// The board code of a grid.
pub fn board_code(grid: &Grid<Tile>) -> (r: u64)
    ensures
        r == code_upto(grid@, 9),
        r < 19683,
{
    let mut c: u64 = 0;
    let mut i: usize = 0;
    while i < CELLS
        invariant
            i <= 9,
            c == code_upto(grid@, i as int),
            c < pow3(i as nat),
            pow3(i as nat) <= 19683,
        decreases 9 - i,
    {
        proof {
            reveal_with_fuel(pow3, 10);
            lemma_code_bound(grid@, i as int + 1);
        }
        let d: u64 = match grid.cells[i] {
            Tile::Empty => 0,
            Tile::X => 1,
            Tile::O => 2,
        };
        c = c * 3 + d;
        i = i + 1;
    }
    proof {
        reveal_with_fuel(pow3, 10);
    }
    c
}

/// Memoized minimax values, for one ply limit, keyed by board, mover and depth.
pub struct MinimaxCache {
    limit: Option<usize>,
    map: BTreeMap<u64, Grid<i64>>,
}

impl MinimaxCache {
    /// Every stored entry holds the minimax values of its key.
    pub closed spec fn wf(&self) -> bool {
        forall|s: Seq<Tile>, p: Player, d: int|
            s.len() == 9 && 0 <= d <= MAX_DEPTH && #[trigger] self.map@.contains_key(key_of(s, p, d))
                ==> values_match(self.map@[key_of(s, p, d)]@, s, p, self.limit, d)
    }

    /// The ply limit the stored values were computed with.
    pub closed spec fn limit_spec(&self) -> Option<usize> {
        self.limit
    }

    /// The stored entries, by memo key (see `key_of`).
    pub closed spec fn entries(&self) -> Map<u64, Grid<i64>> {
        self.map@
    }

    /// An empty cache for the given ply limit.
    pub fn new(limit: Option<usize>) -> (r: MinimaxCache)
        ensures
            r.wf(),
            r.limit_spec() == limit,
    {
        MinimaxCache { limit, map: BTreeMap::new() }
    }

    /// The ply limit the stored values were computed with.
    pub fn limit(&self) -> (r: Option<usize>)
        ensures
            r == self.limit_spec(),
    {
        self.limit
    }

    /// Drops every entry and adopts `limit`.
    pub fn reset(&mut self, limit: Option<usize>)
        ensures
            final(self).wf(),
            final(self).limit_spec() == limit,
    {
        self.limit = limit;
        self.map = BTreeMap::new();
    }
}

proof fn lemma_best_of_matches(s: Seq<Tile>, v: Seq<i64>, p: Player, limit: Option<usize>, depth: int, n: int)
    requires
        s.len() == 9,
        0 <= n <= 9,
        values_match(v, s, p, limit, depth),
    ensures
        best_of(s, v, n) == node_best(s, p, limit, depth, n),
        best_of(s, v, n) matches Some(b) ==> -VALUE_UNIT <= b <= VALUE_UNIT,
    decreases n,
{
    if n > 0 {
        lemma_best_of_matches(s, v, p, limit, depth, n - 1);
        assert(v[n - 1] == action_value(s, p, limit, depth, n - 1));
    }
}

/// The largest value over the empty cells of `grid`, `None` when none is empty.
pub fn best_legal(grid: &Grid<Tile>, values: &Grid<i64>) -> (r: Option<i64>)
    ensures
        best_of(grid@, values@, 9) == match r {
            Some(x) => Some(x as int),
            None => None::<int>,
        },
{
    let mut best: Option<i64> = None;
    let mut i: usize = 0;
    while i < CELLS
        invariant
            i <= 9,
            best_of(grid@, values@, i as int) == match best {
                Some(x) => Some(x as int),
                None => None::<int>,
            },
        decreases 9 - i,
    {
        if grid.cells[i] == Tile::Empty {
            let v = values.cells[i];
            best = match best {
                None => Some(v),
                Some(m) => Some(if v > m { v } else { m }),
            };
        }
        i = i + 1;
    }
    best
}

/// The minimax value for `player` of each cell of `grid` at `depth`, with the ply
/// limit `limit`; occupied cells get zero. Results are memoized in `cache`, which
/// is emptied first if it was filled under another limit.
pub fn minimax(
    grid: &Grid<Tile>,
    cache: &mut MinimaxCache,
    player: Player,
    limit: Option<usize>,
    depth: usize,
) -> (r: Grid<i64>)
    requires
        old(cache).wf(),
        depth + empty_count(grid@) <= MAX_DEPTH,
    ensures
        final(cache).wf(),
        final(cache).limit_spec() == limit,
        values_match(r@, grid@, player, limit, depth as int),
        final(cache).entries().contains_key(key_of(grid@, player, depth as int)),
        final(cache).entries()[key_of(grid@, player, depth as int)] == r,
        old(cache).limit_spec() == limit ==> forall|k: u64| #[trigger]
            old(cache).entries().contains_key(k) ==> final(cache).entries().contains_key(k)
                && final(cache).entries()[k] == old(cache).entries()[k],
        old(cache).limit_spec() == limit && old(cache).entries().contains_key(
            key_of(grid@, player, depth as int),
        ) ==> r == old(cache).entries()[key_of(grid@, player, depth as int)] && *final(cache) == *old(cache),
    decreases empty_count(grid@),
{
    if cache.limit != limit {
        cache.reset(limit);
    }
    let side: u64 = match player {
        Player::X => 0,
        Player::O => 1,
    };
    let k: u64 = (depth as u64 * 2 + side) * 19683 + board_code(grid);
    assert(k == key_of(grid@, player, depth as int));
    match cache.map.get(&k) {
        Some(v) => {
            assert(cache.map@.contains_key(key_of(grid@, player, depth as int)));
            return *v;
        },
        None => {},
    }
    let ghost start = cache.map@;
    let mut cells: [i64; 9] = [0i64; 9];
    let mut a: usize = 0;
    while a < CELLS
        invariant
            a <= 9,
            cache.wf(),
            cache.limit_spec() == limit,
            depth + empty_count(grid@) <= MAX_DEPTH,
            !start.contains_key(k),
            forall|key: u64| #[trigger] start.contains_key(key) ==> cache.map@.contains_key(key) && cache.map@[key] == start[key],
            forall|j: int|
                0 <= j < a ==> #[trigger] cells@[j] == action_value(grid@, player, limit, depth as int, j)
                    && -VALUE_UNIT <= cells@[j] <= VALUE_UNIT,
            forall|j: int| a <= j < 9 ==> #[trigger] cells@[j] == 0,
        decreases 9 - a,
    {
        if grid.cells[a] == Tile::Empty {
            let mut next = *grid;
            next.cells[a] = Tile::from(player);
            assert(next@ == grid@.update(a as int, tile_of(player)));
            let r = next.reward(player);
            let cut = match limit {
                Some(l) => depth >= l,
                None => false,
            };
            if r != 0 || cut {
                let step: i64 = (2520usize / (depth + 1)) as i64;
                assert(0 <= step <= 2520);
                assert(-2520 <= r * step <= 2520) by (nonlinear_arith)
                    requires 0 <= step <= 2520, -1 <= r <= 1;
                cells[a] = r * step;
                assert(cells@[a as int] == terminal_value(r as int, depth as int));
                assert(cells@[a as int] == action_value(grid@, player, limit, depth as int, a as int));
            } else {
                let deep = minimax(&next, cache, player.next(), limit, depth + 1);
                let best = best_legal(&next, &deep);
                proof {
                    lemma_best_of_matches(next@, deep@, next_spec(player), limit, depth + 1, 9);
                }
                cells[a] = match best {
                    Some(b) => -b,
                    None => 0,
                };
                assert(cells@[a as int] == action_value(grid@, player, limit, depth as int, a as int));
            }
        } else {
            assert(cells@[a as int] == action_value(grid@, player, limit, depth as int, a as int));
        }
        assert(-VALUE_UNIT <= cells@[a as int] <= VALUE_UNIT);
        a = a + 1;
    }
    let res = Grid { cells };
    let ghost old_map = cache.map@;
    cache.map.insert(k, res);
    proof {
        assert forall|s: Seq<Tile>, p: Player, d: int|
            s.len() == 9 && 0 <= d <= MAX_DEPTH && #[trigger] cache.map@.contains_key(key_of(s, p, d))
            implies values_match(cache.map@[key_of(s, p, d)]@, s, p, cache.limit, d) by {
            if key_of(s, p, d) == k {
                lemma_code_bound(grid@, 9);
                lemma_code_bound(s, 9);
                reveal_with_fuel(pow3, 10);
                lemma_memo_key_injective(s, p, d, grid@, player, depth as int);
            } else {
                assert(old_map.contains_key(key_of(s, p, d)));
            }
        }
    }
    res
}


proof fn lemma_best_indicator_matches(s: Seq<Tile>, v: Seq<i64>, p: Player, limit: Option<usize>, best: int, ind: Seq<i64>)
    requires
        values_match(v, s, p, limit, 0),
        ind.len() == 9,
        forall|a: int| 0 <= a < 9 ==> #[trigger] ind[a] == if s[a] == Tile::Empty && v[a] == best { 1i64 } else { 0i64 },
    ensures
        ind == best_indicator(s, minimax_values(s, p, limit, 0), best),
{
    assert forall|a: int| 0 <= a < 9 implies #[trigger] ind[a] == best_indicator(s, minimax_values(s, p, limit, 0), best)[a] by {
        assert(v[a] == action_value(s, p, limit, 0, a));
    }
    assert(ind =~= best_indicator(s, minimax_values(s, p, limit, 0), best));
}

/// The minimax distribution of `grid` for `player`: the legal moves of best value
/// share probability `UNIT` equally; every other cell gets zero.
pub fn minimax_probability(grid: &Grid<Tile>, cache: &mut MinimaxCache, player: Player, limit: Option<usize>) -> (r: Grid<i64>)
    requires
        old(cache).wf(),
    ensures
        final(cache).wf(),
        final(cache).limit_spec() == limit,
        r@ == minimax_dist(grid@, player, limit),
{
    let values = minimax(grid, cache, player, limit, 0);
    let best_opt = best_legal(grid, &values);
    proof {
        lemma_best_of_matches(grid@, values@, player, limit, 0, 9);
    }
    let best: i64 = match best_opt {
        Some(b) => b,
        None => 0,
    };
    let mut ind: [i64; 9] = [0i64; 9];
    let mut a: usize = 0;
    while a < CELLS
        invariant
            a <= 9,
            forall|j: int| 0 <= j < a ==> #[trigger] ind@[j] == if grid@[j] == Tile::Empty && values@[j] == best { 1i64 } else { 0i64 },
            forall|j: int| a <= j < 9 ==> #[trigger] ind@[j] == 0,
        decreases 9 - a,
    {
        if grid.cells[a] == Tile::Empty && values.cells[a] == best {
            ind[a] = 1;
        }
        a = a + 1;
    }
    let indicator = Grid { cells: ind };
    proof {
        lemma_best_indicator_matches(grid@, values@, player, limit, best as int, indicator@);
    }
    indicator.normalize()
}

pub proof fn lemma_count_bounds(s: Seq<Tile>, t: Tile, n: int)
    requires
        0 <= n <= 9,
    ensures
        0 <= count_of(s, t, n) <= n,
        (exists|i: int| 0 <= i < n && s[i] == t) ==> count_of(s, t, n) >= 1,
    decreases n,
{
    if n > 0 {
        lemma_count_bounds(s, t, n - 1);
        if exists|i: int| 0 <= i < n && s[i] == t {
            let i = choose|i: int| 0 <= i < n && s[i] == t;
            if i < n - 1 {
                assert(exists|i: int| 0 <= i < n - 1 && s[i] == t);
            }
        }
    }
}

/// A decision rule that maps a board to a distribution over its cells: the
/// uniform random policy, or the minimax policy with its memo table.
pub enum Policy {
    Random,
    Minimax(MinimaxCache),
}

/// What a policy computes, without its memo tables.
pub enum PolicyKind {
    Random,
    Minimax(Option<usize>),
}

/// All zero.
pub open spec fn zero_dist() -> Seq<i64> {
    Seq::new(9, |i: int| 0i64)
}

/// The distribution a policy of kind `k` gives on board `s`.
pub open spec fn dist_of(k: PolicyKind, s: Seq<Tile>) -> Seq<i64> {
    match k {
        PolicyKind::Random => random_dist(s),
        PolicyKind::Minimax(limit) => match current_player_spec(s) {
            None => zero_dist(),
            Some(p) => minimax_dist(s, p, limit),
        },
    }
}

impl Policy {
    pub open spec fn wf(&self) -> bool {
        match self {
            Policy::Random => true,
            Policy::Minimax(c) => c.wf(),
        }
    }

    pub open spec fn kind(&self) -> PolicyKind {
        match self {
            Policy::Random => PolicyKind::Random,
            Policy::Minimax(c) => PolicyKind::Minimax(c.limit_spec()),
        }
    }

    /// The action distribution on `grid`, in units of `1 / UNIT`.
    pub fn evaluate(&mut self, grid: &Grid<Tile>) -> (r: Grid<i64>)
        requires
            old(self).wf(),
        ensures
            final(self).wf(),
            final(self).kind() == old(self).kind(),
            r@ == dist_of(old(self).kind(), grid@),
            current_player_spec(grid@).is_none() ==> *final(self) == *old(self),
    {
        match self {
            Policy::Random => random_distribution(grid),
            Policy::Minimax(cache) => {
                let limit = cache.limit();
                match grid.current_player() {
                    None => {
                        let z = Grid::<i64>::zero();
                        assert(z@ =~= zero_dist());
                        z
                    },
                    Some(p) => minimax_probability(grid, cache, p, limit),
                }
            },
        }
    }
}

/// The uniform distribution over the empty cells while a player is to move.
pub fn random_distribution(grid: &Grid<Tile>) -> (r: Grid<i64>)
    ensures
        r@ == random_dist(grid@),
{
    let mut cells: [i64; 9] = [0i64; 9];
    if grid.current_player().is_none() {
        let r = Grid { cells };
        assert(r@ =~= random_dist(grid@));
        return r;
    }
    let options = grid.count(Tile::Empty);
    proof {
        lemma_count_bounds(grid@, Tile::Empty, 9);
    }
    let prob: i64 = UNIT / (options as i64);
    let mut a: usize = 0;
    while a < CELLS
        invariant
            a <= 9,
            current_player_spec(grid@).is_some(),
            options == count_of(grid@, Tile::Empty, 9),
            prob == UNIT as int / options as int,
            forall|j: int| 0 <= j < a ==> #[trigger] cells@[j] == random_dist(grid@)[j],
        decreases 9 - a,
    {
        if grid.cells[a] == Tile::Empty {
            cells[a] = prob;
        } else {
            cells[a] = 0;
        }
        a = a + 1;
    }
    let r = Grid { cells };
    assert(r@ =~= random_dist(grid@));
    r
}

/// The uniform random policy.
pub fn policy_random() -> (r: Policy)
    ensures
        r.wf(),
        r.kind() == PolicyKind::Random,
{
    Policy::Random
}

/// The minimax policy with ply limit `depth`, memoizing in `cache` (emptied
/// first when it was filled under another limit).
pub fn policy_minimax_cached(depth: Option<usize>, cache: MinimaxCache) -> (r: Policy)
    requires
        cache.wf(),
    ensures
        r.wf(),
        r.kind() == PolicyKind::Minimax(depth),
{
    let mut cache = cache;
    if cache.limit() != depth {
        cache.reset(depth);
    }
    Policy::Minimax(cache)
}


/// Sum of the positive entries among the first `n`.
pub open spec fn pos_sum(v: Seq<i64>, n: int) -> int
    decreases n,
{
    if n <= 0 {
        0
    } else {
        pos_sum(v, n - 1) + if v[n - 1] > 0 { v[n - 1] as int } else { 0int }
    }
}

/// The last index among the first `n` with a positive entry.
pub open spec fn last_positive(v: Seq<i64>, n: int) -> Option<int>
    decreases n,
{
    if n <= 0 {
        None
    } else if v[n - 1] > 0 {
        Some(n - 1)
    } else {
        last_positive(v, n - 1)
    }
}

/// The cell that a draw selects from weights `v`: the positive cell whose
/// interval `[pos_sum(v, i), pos_sum(v, i + 1))` holds the draw; a draw beyond
/// the total selects the last positive cell, or cell 0 when none is positive.
pub open spec fn picked(v: Seq<i64>, draw: int, i: int) -> bool {
    if 0 <= draw < pos_sum(v, 9) {
        0 <= i < 9 && v[i] > 0 && pos_sum(v, i) <= draw < pos_sum(v, i + 1)
    } else {
        i == match last_positive(v, 9) {
            Some(j) => j,
            None => 0,
        }
    }
}

proof fn lemma_pos_sum_bounds(v: Seq<i64>, n: int)
    requires
        0 <= n <= 9,
        bounded(v, crate::values::CELL_BOUND as int),
    ensures
        0 <= pos_sum(v, n) <= n * crate::values::CELL_BOUND,
    decreases n,
{
    if n > 0 {
        lemma_pos_sum_bounds(v, n - 1);
    }
}

proof fn lemma_pos_sum_mono(v: Seq<i64>, i: int, j: int)
    requires
        0 <= i <= j,
    ensures
        pos_sum(v, i) <= pos_sum(v, j),
    decreases j,
{
    if j > i {
        lemma_pos_sum_mono(v, i, j - 1);
    }
}

/// A number drawn uniformly from `0..bound`.
///
/// Relies on rand's `Rng::gen_range` on `thread_rng()`, which returns a value in
/// the given range and panics on an empty one.
#[verifier::external_body]
fn draw_below(bound: i64) -> (r: i64)
    requires
        bound > 0,
    ensures
        0 <= r < bound,
{
    rand::Rng::gen_range(&mut rand::thread_rng(), 0..bound)
}

/// Selects a cell from the weights `probs` with `draw`, a number from `0..` the
/// sum of the positive weights (see `picked`).
pub fn pick_action(probs: &Grid<i64>, draw: i64) -> (r: Pos)
    requires
        bounded(probs@, crate::values::CELL_BOUND as int),
        0 <= draw,
    ensures
        r.in_bounds(),
        picked(probs@, draw as int, r.index()),
{
    let mut rng: i64 = draw;
    let mut last: usize = 0;
    let mut i: usize = 0;
    proof {
        lemma_pos_sum_bounds(probs@, 9);
    }
    while i < CELLS
        invariant
            i <= 9,
            bounded(probs@, crate::values::CELL_BOUND as int),
            0 <= draw,
            rng == draw - pos_sum(probs@, i as int),
            0 <= rng,
            last < 9,
            last == match last_positive(probs@, i as int) {
                Some(j) => j,
                None => 0,
            },
        decreases 9 - i,
    {
        proof {
            lemma_pos_sum_bounds(probs@, i as int + 1);
        }
        let p = probs.cells[i];
        if p > 0 {
            rng = rng - p;
            if rng < 0 {
                proof {
                    lemma_pos_sum_mono(probs@, i as int + 1, 9);
                }
                return position_at(i);
            }
            last = i;
        }
        i = i + 1;
    }
    position_at(last)
}

/// Sum of the positive weights.
pub fn positive_total(probs: &Grid<i64>) -> (r: i64)
    requires
        bounded(probs@, crate::values::CELL_BOUND as int),
    ensures
        r == pos_sum(probs@, 9),
{
    let mut t: i64 = 0;
    let mut i: usize = 0;
    while i < CELLS
        invariant
            i <= 9,
            bounded(probs@, crate::values::CELL_BOUND as int),
            t == pos_sum(probs@, i as int),
        decreases 9 - i,
    {
        proof {
            lemma_pos_sum_bounds(probs@, i as int + 1);
        }
        if probs.cells[i] > 0 {
            t = t + probs.cells[i];
        }
        i = i + 1;
    }
    t
}

/// Whether cell `i` can be the outcome of sampling from `v`: some draw from
/// `0..` the positive total selects it, or, when no weight is positive, it is
/// cell 0.
pub open spec fn sampled(v: Seq<i64>, i: int) -> bool {
    exists|d: int| 0 <= d && (d < pos_sum(v, 9) || pos_sum(v, 9) == 0) && #[trigger] picked(v, d, i)
}

/// Samples a cell from the weights `probs`, each with probability proportional
/// to its positive weight.
pub fn choose_action(probs: &Grid<i64>) -> (r: Pos)
    requires
        bounded(probs@, crate::values::CELL_BOUND as int),
    ensures
        r.in_bounds(),
        sampled(probs@, r.index()),
        pos_sum(probs@, 9) > 0 ==> probs@[r.index()] > 0,
{
    let total = positive_total(probs);
    let draw: i64 = if total > 0 {
        draw_below(total)
    } else {
        0
    };
    let r = pick_action(probs, draw);
    proof {
        lemma_pos_sum_bounds(probs@, 9);
        let d = draw as int;
        assert(0 <= d && (d < pos_sum(probs@, 9) || pos_sum(probs@, 9) == 0) && picked(probs@, d, r.index()));
    }
    r
}

/// A move of the uniform random policy selected by `draw` (see `pick_action`).
pub fn random_action_with(grid: &Grid<Tile>, draw: i64) -> (r: Pos)
    requires
        0 <= draw,
    ensures
        r.in_bounds(),
        picked(random_dist(grid@), draw as int, r.index()),
{
    let probs = random_distribution(grid);
    proof {
        lemma_count_bounds(grid@, Tile::Empty, 9);
    }
    assert(bounded(probs@, crate::values::CELL_BOUND as int));
    pick_action(&probs, draw)
}

/// A random move of the uniform random policy: an empty cell while a player
/// is to move.
pub fn random_action(grid: &Grid<Tile>) -> (r: Pos)
    ensures
        r.in_bounds(),
        sampled(random_dist(grid@), r.index()),
        current_player_spec(grid@).is_some() ==> grid@[r.index()] == Tile::Empty,
{
    let probs = random_distribution(grid);
    proof {
        lemma_count_bounds(grid@, Tile::Empty, 9);
    }
    assert(bounded(probs@, crate::values::CELL_BOUND as int));
    let r = choose_action(&probs);
    proof {
        if current_player_spec(grid@).is_some() {
            lemma_distribution_valid(PolicyKind::Random, grid@);
            lemma_pos_sum_total(probs@, 9);
        }
    }
    r
}

/// A move of the minimax policy for `player` selected by `draw` from the
/// minimax distribution, with its minimax value.
pub fn minimax_action_with(
    grid: &Grid<Tile>,
    cache: &mut MinimaxCache,
    player: Player,
    limit: Option<usize>,
    draw: i64,
) -> (r: (Pos, i64))
    requires
        old(cache).wf(),
        0 <= draw,
    ensures
        final(cache).wf(),
        final(cache).limit_spec() == limit,
        r.0.in_bounds(),
        picked(minimax_dist(grid@, player, limit), draw as int, r.0.index()),
        r.1 == action_value(grid@, player, limit, 0, r.0.index()),
{
    let probs = minimax_probability(grid, cache, player, limit);
    let values = minimax(grid, cache, player, limit, 0);
    proof {
        lemma_normalized_indicator_bounded(grid@, player, limit);
    }
    let action = pick_action(&probs, draw);
    let value = match values.get(action) {
        Some(v) => *v,
        None => 0,
    };
    (action, value)
}

/// A random move of the minimax policy for `player`, with its minimax value.
/// While `player` is to move it is a legal move of best value.
pub fn minimax_action(
    grid: &Grid<Tile>,
    cache: &mut MinimaxCache,
    player: Player,
    limit: Option<usize>,
) -> (r: (Pos, i64))
    requires
        old(cache).wf(),
    ensures
        final(cache).wf(),
        final(cache).limit_spec() == limit,
        r.0.in_bounds(),
        sampled(minimax_dist(grid@, player, limit), r.0.index()),
        r.1 == action_value(grid@, player, limit, 0, r.0.index()),
        current_player_spec(grid@) == Some(player) ==> grid@[r.0.index()] == Tile::Empty && node_best(
            grid@,
            player,
            limit,
            0,
            9,
        ) == Some(r.1 as int),
{
    let probs = minimax_probability(grid, cache, player, limit);
    let values = minimax(grid, cache, player, limit, 0);
    proof {
        lemma_normalized_indicator_bounded(grid@, player, limit);
    }
    let action = choose_action(&probs);
    proof {
        if current_player_spec(grid@) == Some(player) {
            lemma_distribution_valid(PolicyKind::Minimax(limit), grid@);
            lemma_pos_sum_total(probs@, 9);
            lemma_minimax_support(grid@, player, limit, action.index());
        }
    }
    let value = match values.get(action) {
        Some(v) => *v,
        None => 0,
    };
    (action, value)
}

proof fn lemma_normalized_indicator_bounded(s: Seq<Tile>, p: Player, limit: Option<usize>)
    ensures
        bounded(minimax_dist(s, p, limit), crate::values::CELL_BOUND as int),
        nonneg(minimax_dist(s, p, limit)),
{
    let best = match node_best(s, p, limit, 0, 9) {
        Some(b) => b,
        None => 0,
    };
    let ind = best_indicator(s, minimax_values(s, p, limit, 0), best);
    crate::values::lemma_normalized_range(ind);
}


/// Every cell of every policy's distribution lies between 0 and `UNIT`.
pub proof fn lemma_dist_range(k: PolicyKind, s: Seq<Tile>)
    ensures
        dist_of(k, s).len() == 9,
        forall|a: int| 0 <= a < 9 ==> 0 <= #[trigger] dist_of(k, s)[a] <= UNIT,
{
    match k {
        PolicyKind::Random => {
            lemma_count_bounds(s, Tile::Empty, 9);
            let c = count_of(s, Tile::Empty, 9);
            if current_player_spec(s).is_some() {
                assert(0 <= UNIT as int / c <= UNIT) by (nonlinear_arith)
                    requires c >= 1;
            }
        },
        PolicyKind::Minimax(limit) => {
            match current_player_spec(s) {
                None => {},
                Some(p) => {
                    let best = match node_best(s, p, limit, 0, 9) {
                        Some(b) => b,
                        None => 0,
                    };
                    let ind = best_indicator(s, minimax_values(s, p, limit, 0), best);
                    crate::values::lemma_normalized_range(ind);
                },
            }
        },
    }
}


proof fn lemma_node_best_attained(s: Seq<Tile>, p: Player, limit: Option<usize>, depth: int, n: int)
    requires
        s.len() == 9,
        0 <= n <= 9,
    ensures
        node_best(s, p, limit, depth, n) matches Some(b) ==> exists|a: int|
            0 <= a < n && s[a] == Tile::Empty && action_value(s, p, limit, depth, a) == b,
        (exists|a: int| 0 <= a < n && s[a] == Tile::Empty) ==> node_best(s, p, limit, depth, n).is_some(),
    decreases n,
{
    if n > 0 {
        lemma_node_best_attained(s, p, limit, depth, n - 1);
        if exists|a: int| 0 <= a < n && s[a] == Tile::Empty {
            let a = choose|a: int| 0 <= a < n && s[a] == Tile::Empty;
            if a < n - 1 {
                assert(exists|a: int| 0 <= a < n - 1 && s[a] == Tile::Empty);
            }
        }
    }
}

proof fn lemma_count_indicator(s: Seq<Tile>, t: Tile, w: Seq<i64>, n: int)
    requires
        0 <= n <= 9,
        forall|i: int| 0 <= i < 9 ==> #[trigger] w[i] == if s[i] == t { 1i64 } else { 0i64 },
    ensures
        crate::values::sum_upto(w, n) == count_of(s, t, n),
    decreases n,
{
    if n > 0 {
        lemma_count_indicator(s, t, w, n - 1);
    }
}

/// While a player is to move, either policy gives a distribution: no cell is
/// negative, occupied cells get nothing, and the cells sum to `UNIT`.
pub proof fn lemma_distribution_valid(k: PolicyKind, s: Seq<Tile>)
    requires
        s.len() == 9,
        current_player_spec(s).is_some(),
    ensures
        forall|a: int| 0 <= a < 9 ==> 0 <= #[trigger] dist_of(k, s)[a],
        forall|a: int| 0 <= a < 9 && s[a] != Tile::Empty ==> #[trigger] dist_of(k, s)[a] == 0,
        total(dist_of(k, s)) == UNIT,
{
    lemma_dist_range(k, s);
    match k {
        PolicyKind::Random => {
            lemma_count_bounds(s, Tile::Empty, 9);
            let c = count_of(s, Tile::Empty, 9);
            let w = Seq::new(9, |i: int| if s[i] == Tile::Empty { 1i64 } else { 0i64 });
            lemma_count_indicator(s, Tile::Empty, w, 9);
            crate::values::lemma_sum_indicator(random_dist(s), w, UNIT as int / c, 9);
            crate::values::lemma_unit_divisible(c);
        },
        PolicyKind::Minimax(limit) => {
            let p = current_player_spec(s).unwrap();
            lemma_node_best_attained(s, p, limit, 0, 9);
            let best = node_best(s, p, limit, 0, 9).unwrap();
            let w = best_indicator(s, minimax_values(s, p, limit, 0), best);
            let a = choose|a: int| 0 <= a < 9 && s[a] == Tile::Empty && action_value(s, p, limit, 0, a) == best;
            assert(w[a] == 1);
            crate::values::lemma_normalized_indicator(w);
        },
    }
}

/// Once the game is won or the board is full, either policy gives all zeros.
pub proof fn lemma_terminal_zero(k: PolicyKind, s: Seq<Tile>)
    requires
        current_player_spec(s).is_none(),
    ensures
        forall|a: int| 0 <= a < 9 ==> #[trigger] dist_of(k, s)[a] == 0,
{
}


/// No minimax value exceeds `VALUE_UNIT` in magnitude.
pub proof fn lemma_action_value_bound(s: Seq<Tile>, p: Player, limit: Option<usize>, depth: int, a: int)
    ensures
        -VALUE_UNIT <= action_value(s, p, limit, depth, a) <= VALUE_UNIT,
    decreases empty_count(s), 0nat,
{
    if s.len() != 9 || !(0 <= a < 9) || s[a] != Tile::Empty || depth < 0 {
    } else {
        let t = s.update(a, tile_of(p));
        let r = reward_spec(t, p);
        if r != 0 || cut_off(limit, depth) {
            let d1 = depth + 1;
            let q = VALUE_UNIT as int / d1;
            assert(0 <= 2520int / d1 <= 2520) by (nonlinear_arith)
                requires d1 >= 1;
            assert(-VALUE_UNIT <= r * q <= VALUE_UNIT) by (nonlinear_arith)
                requires -1 <= r <= 1, 0 <= q <= VALUE_UNIT;
        } else {
            lemma_node_best_bound(t, next_spec(p), limit, depth + 1, 9);
        }
    }
}

proof fn lemma_node_best_bound(s: Seq<Tile>, p: Player, limit: Option<usize>, depth: int, n: int)
    ensures
        node_best(s, p, limit, depth, n) matches Some(b) ==> -VALUE_UNIT <= b <= VALUE_UNIT,
    decreases empty_count(s), n + 1,
{
    if n <= 0 || s.len() != 9 || n > 9 {
    } else {
        lemma_node_best_bound(s, p, limit, depth, n - 1);
        if s[n - 1] == Tile::Empty {
            lemma_action_value_bound(s, p, limit, depth, n - 1);
        }
    }
}

proof fn lemma_node_best_is_max(s: Seq<Tile>, p: Player, limit: Option<usize>, depth: int, n: int, a: int)
    requires
        s.len() == 9,
        0 <= a < n <= 9,
        s[a] == Tile::Empty,
    ensures
        node_best(s, p, limit, depth, n) matches Some(b) && action_value(s, p, limit, depth, a) <= b,
    decreases n,
{
    if a < n - 1 {
        lemma_node_best_is_max(s, p, limit, depth, n - 1, a);
    }
}

/// A move that wins at once is worth `VALUE_UNIT`, the most any move is worth,
/// so it is among the best moves from the root.
pub proof fn lemma_winning_move(s: Seq<Tile>, p: Player, limit: Option<usize>, a: int)
    requires
        s.len() == 9,
        0 <= a < 9,
        s[a] == Tile::Empty,
        reward_spec(s.update(a, tile_of(p)), p) == 1,
    ensures
        action_value(s, p, limit, 0, a) == VALUE_UNIT,
        node_best(s, p, limit, 0, 9) == Some(VALUE_UNIT as int),
{
    let t = s.update(a, tile_of(p));
    assert(reward_spec(t, p) == 1);
    assert(2520int / 1int == 2520) by (nonlinear_arith);
    assert(terminal_value(1, 0) == VALUE_UNIT);
    assert(action_value(s, p, limit, 0, a) == terminal_value(1, 0));
    lemma_node_best_is_max(s, p, limit, 0, 9, a);
    lemma_node_best_bound(s, p, limit, 0, 9);
}

/// A cell the minimax distribution gives positive probability is a legal move
/// of best value.
pub proof fn lemma_minimax_support(s: Seq<Tile>, p: Player, limit: Option<usize>, a: int)
    requires
        s.len() == 9,
        0 <= a < 9,
        minimax_dist(s, p, limit)[a] > 0,
    ensures
        s[a] == Tile::Empty,
        node_best(s, p, limit, 0, 9) == Some(action_value(s, p, limit, 0, a)),
{
    let best = match node_best(s, p, limit, 0, 9) {
        Some(b) => b,
        None => 0,
    };
    let w = best_indicator(s, minimax_values(s, p, limit, 0), best);
    crate::values::lemma_sum_nonneg(w, 9);
    if total(w) != 0 {
        crate::values::lemma_normalized_nonneg(w);
        assert(w[a] != 0) by {
            if w[a] == 0 {
                assert(normalized(w)[a] == (0 * UNIT / total(w)) as i64);
            }
        }
    }
    assert(w[a] == 1);
    lemma_node_best_attained(s, p, limit, 0, 9);
    if node_best(s, p, limit, 0, 9).is_none() {
        assert(exists|b: int| 0 <= b < 9 && s[b] == Tile::Empty);
    }
}

/// The minimax value of the sampled move is the best value among the legal
/// moves, whenever the draw lies below `UNIT` and a player is to move.
pub proof fn lemma_minimax_action_is_best(s: Seq<Tile>, p: Player, limit: Option<usize>, draw: int, i: int)
    requires
        s.len() == 9,
        current_player_spec(s) == Some(p),
        0 <= draw < UNIT,
        picked(minimax_dist(s, p, limit), draw, i),
    ensures
        0 <= i < 9,
        s[i] == Tile::Empty,
        node_best(s, p, limit, 0, 9) == Some(action_value(s, p, limit, 0, i)),
{
    lemma_distribution_valid(PolicyKind::Minimax(limit), s);
    let v = minimax_dist(s, p, limit);
    lemma_pos_sum_total(v, 9);
    lemma_minimax_support(s, p, limit, i);
}

proof fn lemma_pos_sum_total(v: Seq<i64>, n: int)
    requires
        0 <= n <= 9,
        nonneg(v),
    ensures
        pos_sum(v, n) == crate::values::sum_upto(v, n),
    decreases n,
{
    if n > 0 {
        lemma_pos_sum_total(v, n - 1);
    }
}

} // verus!
