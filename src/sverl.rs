use vstd::prelude::*;

use std::collections::BTreeMap;

use crate::board::{current_player_spec, reward_spec, tile_of, Grid, Player, Tile, CELLS};
use crate::observation::{lemma_marginal_total, marginal};
use crate::policy::{
    board_code, code_upto, dist_of, empty_count, lemma_code_bound, lemma_code_injective, pow3,
    Policy, PolicyKind,
};
use crate::observation::lemma_dist_total;
use crate::shapley::{
    coalition_value, lemma_blind_hidden, lemma_shapley_upto_equal, mask_hidden, return_value, shapley_upto, shapley_value, values_for,
    Explainer, ExplainerKind,
};
use crate::observation::isum;
use crate::values::{bounded, CELL_BOUND};
use crate::values::{nonneg, sum_upto, total, UNIT};

verus! {

/// A discount factor `num / den` between 0 and 1.
#[derive(Clone, Copy, PartialEq, Eq, Structural, Debug)]
pub struct Discount {
    pub num: u64,
    pub den: u64,
}

/// The largest denominator a discount may have.
pub const DISCOUNT_DEN_BOUND: u64 = 1000000000;

impl Discount {
    pub open spec fn valid(self) -> bool {
        1 <= self.den <= DISCOUNT_DEN_BOUND && self.num <= self.den
    }
}

/// Integer division rounding toward zero.
pub open spec fn div_toward_zero(a: int, b: int) -> int {
    if a >= 0 {
        a / b
    } else {
        -((-a) / b)
    }
}

/// `a / b` rounded toward zero, for a positive `b`.
pub fn divide_toward_zero(a: i64, b: i64) -> (r: i64)
    requires
        b >= 1,
        a > i64::MIN,
    ensures
        r == div_toward_zero(a as int, b as int),
{
    if a >= 0 {
        a / b
    } else {
        -((-a) / b)
    }
}

pub proof fn lemma_div_toward_zero_bound(a: int, b: int, c: int)
    requires
        b >= 1,
        -c <= a <= c,
    ensures
        -c <= div_toward_zero(a, b) <= c,
        -((if a >= 0 { a } else { -a }) / b) <= div_toward_zero(a, b) <= (if a >= 0 { a } else { -a }) / b,
{
    if a >= 0 {
        assert(0 <= a / b <= a) by (nonlinear_arith)
            requires a >= 0, b >= 1;
    } else {
        assert(0 <= (-a) / b <= -a) by (nonlinear_arith)
            requires -a >= 0, b >= 1;
    }
}

/// The distribution that guides a move of the rollout: the policy's own, or,
/// when cell `f` is blinded, its average over the three contents of `f`.
pub open spec fn step_dist(k: PolicyKind, blind: Option<int>, s: Seq<Tile>) -> Seq<i64> {
    match blind {
        None => dist_of(k, s),
        Some(f) => marginal(k, s, seq![f]),
    }
}

/// The expected discounted return, in units of `1 / UNIT`, of the player to
/// move on `s` when every move follows `step_dist`: zero once the game is over;
/// otherwise the probability-weighted sum over the empty cells of the reward of
/// the move plus the discounted return of the board it leads to.
pub open spec fn predict_value(k: PolicyKind, blind: Option<int>, g: Discount, s: Seq<Tile>) -> int
    decreases empty_count(s), 10int,
{
    if s.len() != 9 {
        0
    } else {
        match current_player_spec(s) {
            None => 0,
            Some(p) => div_toward_zero(predict_terms(k, blind, g, s, p, 9), UNIT as int),
        }
    }
}

/// The weighted returns of the moves on the first `n` cells.
pub open spec fn predict_terms(k: PolicyKind, blind: Option<int>, g: Discount, s: Seq<Tile>, p: Player, n: int) -> int
    decreases empty_count(s), n,
{
    if n <= 0 || n > 9 || s.len() != 9 {
        0
    } else {
        let w = step_dist(k, blind, s)[n - 1];
        predict_terms(k, blind, g, s, p, n - 1) + if s[n - 1] == Tile::Empty && w > 0 {
            let t = s.update(n - 1, tile_of(p));
            w * (reward_spec(t, p) * UNIT + div_toward_zero(
                g.num * predict_value(k, blind, g, t),
                g.den as int,
            ))
        } else {
            0int
        }
    }
}

/// Which rollout a memo slot belongs to: slot 0 follows the policy itself,
/// slot `f + 1` the policy blinded to cell `f`.
pub open spec fn blind_of(slot: int) -> Option<int> {
    if slot == 0 {
        None
    } else {
        Some(slot - 1)
    }
}

/// The memo key of a board in a slot.
pub open spec fn return_key(slot: int, s: Seq<Tile>) -> u64 {
    (slot * 19683 + code_upto(s, 9)) as u64
}

/// Memoized returns, one slot per rollout policy.
pub struct ReturnCache {
    map: BTreeMap<u64, i64>,
}

impl ReturnCache {
    /// Every entry holds the return of its board under its slot's rollout for
    /// policy kind `k` and discount `g`.
    pub closed spec fn wf(&self, k: PolicyKind, g: Discount) -> bool {
        forall|slot: int, s: Seq<Tile>|
            0 <= slot < 10 && s.len() == 9 && #[trigger] self.map@.contains_key(return_key(slot, s)) ==> {
                let v = self.map@[return_key(slot, s)] as int;
                &&& v == predict_value(k, blind_of(slot), g, s)
                &&& -UNIT <= v <= UNIT
            }
    }

    /// The stored returns, by memo key (see `return_key`).
    pub closed spec fn entries(&self) -> Map<u64, i64> {
        self.map@
    }

    /// An empty cache.
    pub fn new() -> (r: ReturnCache)
        ensures
            forall|k: PolicyKind, g: Discount| r.wf(k, g),
            r.entries() == Map::<u64, i64>::empty(),
    {
        ReturnCache { map: BTreeMap::new() }
    }
}

proof fn lemma_return_key_injective(slot: int, s: Seq<Tile>, slot2: int, t: Seq<Tile>)
    requires
        0 <= slot < 10,
        0 <= slot2 < 10,
        s.len() == 9,
        t.len() == 9,
        return_key(slot, s) == return_key(slot2, t),
    ensures
        slot == slot2,
        s == t,
{
    lemma_code_bound(s, 9);
    lemma_code_bound(t, 9);
    reveal_with_fuel(pow3, 10);
    let cs = code_upto(s, 9);
    let ct = code_upto(t, 9);
    assert(slot == slot2 && cs == ct) by (nonlinear_arith)
        requires slot * 19683 + cs == slot2 * 19683 + ct, 0 <= cs < 19683, 0 <= ct < 19683;
    lemma_code_injective(s, t, 9);
    assert(s =~= t);
}

proof fn lemma_sum_prefix(w: Seq<i64>, a: int, n: int)
    requires
        0 <= a <= n <= 9,
        nonneg(w),
    ensures
        sum_upto(w, a) <= sum_upto(w, n),
    decreases n,
{
    if n > a {
        lemma_sum_prefix(w, a, n - 1);
    }
}

/// The step distribution of the rollout in `slot` on `grid`.
fn step_distribution(grid: &Grid<Tile>, slot: usize, policy: &mut Policy) -> (r: Grid<i64>)
    requires
        old(policy).wf(),
        slot < 10,
    ensures
        final(policy).wf(),
        final(policy).kind() == old(policy).kind(),
        r@ == step_dist(old(policy).kind(), blind_of(slot as int), grid@),
        nonneg(r@),
        total(r@) <= UNIT,
        forall|a: int| 0 <= a < 9 ==> #[trigger] r@[a] <= UNIT,
{
    proof {
        crate::policy::lemma_dist_range(policy.kind(), grid@);
        lemma_dist_total(policy.kind(), grid@);
    }
    if slot == 0 {
        policy.evaluate(grid)
    } else {
        let f = slot - 1;
        proof {
            lemma_blind_hidden(f as u32);
            lemma_marginal_total(policy.kind(), grid@, seq![f as int]);
        }
        let m: u32 = 511u32 - (1u32 << (f as u32));
        let observation = grid.coalition(m);
        observation.value(policy)
    }
}

/// The expected discounted return of the player to move on `grid` under the
/// rollout of `slot`, memoized in `cache`.
pub fn predict(grid: &Grid<Tile>, cache: &mut ReturnCache, slot: usize, gamma: Discount, policy: &mut Policy) -> (r: i64)
    requires
        old(cache).wf(old(policy).kind(), gamma),
        old(policy).wf(),
        gamma.valid(),
        slot < 10,
    ensures
        final(cache).wf(old(policy).kind(), gamma),
        final(policy).wf(),
        final(policy).kind() == old(policy).kind(),
        r == predict_value(old(policy).kind(), blind_of(slot as int), gamma, grid@),
        -UNIT <= r <= UNIT,
        forall|k: u64| #[trigger]
            old(cache).entries().contains_key(k) ==> final(cache).entries().contains_key(k)
                && final(cache).entries()[k] == old(cache).entries()[k],
        old(cache).entries().contains_key(return_key(slot as int, grid@)) ==> r == old(cache).entries()[return_key(
            slot as int,
            grid@,
        )] && *final(cache) == *old(cache) && *final(policy) == *old(policy),
        current_player_spec(grid@).is_none() ==> *final(cache) == *old(cache) && *final(policy) == *old(policy),
        current_player_spec(grid@).is_some() ==> final(cache).entries().contains_key(return_key(slot as int, grid@))
            && final(cache).entries()[return_key(slot as int, grid@)] == r,
    decreases empty_count(grid@),
{
    let ghost k = policy.kind();
    let ghost blind = blind_of(slot as int);
    let key: u64 = slot as u64 * 19683 + board_code(grid);
    assert(key == return_key(slot as int, grid@));
    match cache.map.get(&key) {
        Some(v) => {
            assert(cache.map@.contains_key(return_key(slot as int, grid@)));
            return *v;
        },
        None => {},
    }
    let player = match grid.current_player() {
        None => {
            return 0;
        },
        Some(p) => p,
    };
    let ghost start = cache.map@;
    let weights = step_distribution(grid, slot, policy);
    let ghost e: int = 1;
    let mut acc: i64 = 0;
    let mut psum: i64 = 0;
    let mut a: usize = 0;
    while a < CELLS
        invariant
            a <= 9,
            policy.wf(),
            policy.kind() == k,
            cache.wf(k, gamma),
            !start.contains_key(key),
            forall|kk: u64| #[trigger] start.contains_key(kk) ==> cache.map@.contains_key(kk) && cache.map@[kk] == start[kk],
            gamma.valid(),
            slot < 10,
            blind == blind_of(slot as int),
            1 <= e <= 9,
            weights@ == step_dist(k, blind, grid@),
            nonneg(weights@),
            total(weights@) <= UNIT,
            forall|b: int| 0 <= b < 9 ==> #[trigger] weights@[b] <= UNIT,
            acc == predict_terms(k, blind, gamma, grid@, player, a as int),
            0 <= psum <= sum_upto(weights@, a as int),
            -(psum * e * UNIT) <= acc <= psum * e * UNIT,
        decreases 9 - a,
    {
        proof {
            lemma_sum_prefix(weights@, a as int + 1, 9);
        }
        let w = weights.cells[a];
        if grid.cells[a] == Tile::Empty && w > 0 {
            let mut next = *grid;
            next.cells[a] = Tile::from(player);
            assert(next@ == grid@.update(a as int, tile_of(player)));
            let r = next.reward(player);
            let future = predict(&next, cache, slot, gamma, policy);
            let ghost ef: int = 1;
            assert(-(ef * UNIT) <= future <= ef * UNIT);
            let num = gamma.num as i64;
            let den = gamma.den as i64;
            assert(-(num * ef * UNIT) <= num * future <= num * ef * UNIT) by (nonlinear_arith)
                requires 0 <= num, -(ef * UNIT) <= future <= ef * UNIT;
            assert(num * ef * UNIT <= 9 * DISCOUNT_DEN_BOUND * UNIT) by (nonlinear_arith)
                requires 0 <= num <= DISCOUNT_DEN_BOUND, 0 <= ef <= 9;
            let scaled = num * future;
            let discounted = divide_toward_zero(scaled, den);
            proof {
                lemma_div_toward_zero_bound(scaled as int, den as int, num * ef * UNIT);
                let mag = if scaled >= 0 { scaled as int } else { -scaled };
                assert(mag <= num * ef * UNIT);
                assert(mag / (den as int) <= ef * UNIT) by (nonlinear_arith)
                    requires mag <= num * ef * UNIT, 0 <= num <= den, den >= 1, mag >= 0, ef >= 0;
            }
            proof {
                if r != 0 {
                    assert(current_player_spec(next@).is_none());
                    assert(future == 0);
                    assert(discounted == 0);
                }
            }
            let inner = r * UNIT + discounted;
            assert(-(e * UNIT) <= inner <= e * UNIT);
            assert(-(w * e * UNIT) <= w * inner <= w * e * UNIT) by (nonlinear_arith)
                requires 0 <= w, -(e * UNIT) <= inner <= e * UNIT;
            assert(w * e * UNIT <= UNIT * 9 * UNIT) by (nonlinear_arith)
                requires 0 <= w <= UNIT, 0 <= e <= 9;
            assert(psum * e * UNIT + w * e * UNIT == (psum + w) * e * UNIT) by (nonlinear_arith);
            assert((psum + w) * e * UNIT <= UNIT * 9 * UNIT) by (nonlinear_arith)
                requires 0 <= psum + w <= UNIT, 0 <= e <= 9;
            acc = acc + w * inner;
            psum = psum + w;
        }
        a = a + 1;
    }
    proof {
        lemma_div_toward_zero_bound(acc as int, UNIT as int, psum * e * UNIT);
        let mag = if acc >= 0 { acc as int } else { -acc };
        assert(mag / (UNIT as int) <= e * UNIT) by (nonlinear_arith)
            requires mag <= psum * e * UNIT, 0 <= psum <= UNIT, e >= 0, mag >= 0;
    }
    let res = divide_toward_zero(acc, UNIT);
    let ghost old_map = cache.map@;
    cache.map.insert(key, res);
    proof {
        assert forall|sl: int, s: Seq<Tile>|
            0 <= sl < 10 && s.len() == 9 && #[trigger] cache.map@.contains_key(return_key(sl, s)) implies {
                let v = cache.map@[return_key(sl, s)] as int;
                &&& v == predict_value(k, blind_of(sl), gamma, s)
                &&& -UNIT <= v <= UNIT
            } by {
            if return_key(sl, s) == key {
                lemma_code_bound(grid@, 9);
                reveal_with_fuel(pow3, 10);
                lemma_return_key_injective(sl, s, slot as int, grid@);
            } else {
                assert(old_map.contains_key(return_key(sl, s)));
            }
        }
    }
    res
}


/// The SVERL score of cell `f`: its Shapley values summed over the actions.
pub open spec fn sverl_score(e: ExplainerKind, k: PolicyKind, s: Seq<Tile>, f: int) -> int {
    isum(Seq::new(9, |a: int| shapley_value(values_for(e, k, s, f), f, a)), 9)
}

proof fn lemma_sum_matches(v: Seq<i64>, u: Seq<int>, n: int)
    requires
        0 <= n <= 9,
        forall|a: int| 0 <= a < 9 ==> #[trigger] v[a] == u[a],
    ensures
        sum_upto(v, n) == isum(u, n),
    decreases n,
{
    if n > 0 {
        lemma_sum_matches(v, u, n - 1);
    }
}

impl Grid<Tile> {
    /// SVERL attribution of the return of the player to move: entry `f` is the
    /// Shapley value of observing cell `f`, summed over the first moves, times
    /// `SHAPLEY_SCALE`, in units of `1 / UNIT`. With `global` the rollout after
    /// the first move is blinded to the explained cell as well. All zero once
    /// the game is over.
    pub fn sverl(&self, global: bool, gamma: Discount, policy: &mut Policy) -> (r: Grid<i64>)
        requires
            old(policy).wf(),
            gamma.valid(),
        ensures
            final(policy).wf(),
            final(policy).kind() == old(policy).kind(),
            current_player_spec(self@).is_none() ==> forall|f: int| 0 <= f < 9 ==> #[trigger] r@[f] == 0,
            current_player_spec(self@).is_none() ==> *final(policy) == *old(policy),
            current_player_spec(self@).is_some() ==> forall|f: int|
                0 <= f < 9 ==> #[trigger] r@[f] == sverl_score(
                    ExplainerKind::Return { global, gamma },
                    old(policy).kind(),
                    self@,
                    f,
                ),
    {
        if self.current_player().is_none() {
            return Grid::<i64>::zero();
        }
        assert(current_player_spec(self@).is_some());
        let ghost k = policy.kind();
        let mut explainer = Explainer::Return { global, gamma, cache: ReturnCache::new() };
        let values = self.shapley_with_value(&mut explainer, policy);
        let mut out: [i64; 9] = [0i64; 9];
        let mut f: usize = 0;
        while f < CELLS
            invariant
                f <= 9,
                forall|g: int, a: int|
                    0 <= g < 9 && 0 <= a < 9 ==> #[trigger] values@[g]@[a] == shapley_value(
                        values_for(ExplainerKind::Return { global, gamma }, k, self@, g),
                        g,
                        a,
                    ),
                forall|g: int| 0 <= g < 9 ==> bounded(#[trigger] values@[g]@, CELL_BOUND as int),
                forall|g: int| 0 <= g < f ==> #[trigger] out@[g] == sverl_score(ExplainerKind::Return { global, gamma }, k, self@, g),
            decreases 9 - f,
        {
            let row = values.cells[f];
            assert(bounded(values@[f as int]@, CELL_BOUND as int));
            let total_row = row.sum();
            proof {
                let u = Seq::new(9, |a: int| shapley_value(values_for(ExplainerKind::Return { global, gamma }, k, self@, f as int), f as int, a));
                lemma_sum_matches(row@, u, 9);
            }
            out[f] = total_row;
            f = f + 1;
        }
        Grid { cells: out }
    }
}

/// On a board with at most one empty cell no move follows the first, so the
/// local and the global SVERL attributions agree for every discount.
pub proof fn lemma_local_global_agree(k: PolicyKind, g: Discount, s: Seq<Tile>, f: int, a: int)
    requires
        s.len() == 9,
        empty_count(s) <= 1,
    ensures
        shapley_value(values_for(ExplainerKind::Return { global: true, gamma: g }, k, s, f), f, a)
            == shapley_value(values_for(ExplainerKind::Return { global: false, gamma: g }, k, s, f), f, a),
{
    let v1 = values_for(ExplainerKind::Return { global: true, gamma: g }, k, s, f);
    let v2 = values_for(ExplainerKind::Return { global: false, gamma: g }, k, s, f);
    assert forall|m: u32| #[trigger] v1(m) == v2(m) by {
        match current_player_spec(s) {
            None => {},
            Some(p) => {
                let r1 = return_value(k, true, g, s, f, m);
                let r2 = return_value(k, false, g, s, f, m);
                assert forall|b: int| 0 <= b < 9 implies #[trigger] r1[b] == r2[b] by {
                    if s[b] == Tile::Empty {
                        let t = s.update(b, tile_of(p));
                        assert(empty_count(t) == 0);
                        assert(!crate::board::has_empty(t));
                        assert(predict_value(k, blind_of(f + 1), g, t) == 0);
                        assert(predict_value(k, blind_of(0), g, t) == 0);
                    }
                }
                assert(r1 =~= r2);
            },
        }
    }
    lemma_shapley_upto_equal(v1, v2, f, a, 512);
}


/// The weighted immediate rewards of the moves on the first `n` cells.
pub open spec fn one_step_terms(k: PolicyKind, blind: Option<int>, s: Seq<Tile>, p: Player, n: int) -> int
    decreases n,
{
    if n <= 0 || n > 9 || s.len() != 9 {
        0
    } else {
        let w = step_dist(k, blind, s)[n - 1];
        one_step_terms(k, blind, s, p, n - 1) + if s[n - 1] == Tile::Empty && w > 0 {
            w * (reward_spec(s.update(n - 1, tile_of(p)), p) * UNIT)
        } else {
            0int
        }
    }
}

/// The expected reward of the next move alone, in units of `1 / UNIT`.
pub open spec fn one_step_value(k: PolicyKind, blind: Option<int>, s: Seq<Tile>) -> int {
    if s.len() != 9 {
        0
    } else {
        match current_player_spec(s) {
            None => 0,
            Some(p) => div_toward_zero(one_step_terms(k, blind, s, p, 9), UNIT as int),
        }
    }
}

proof fn lemma_zero_discount_terms(k: PolicyKind, blind: Option<int>, g: Discount, s: Seq<Tile>, p: Player, n: int)
    requires
        g.num == 0,
        g.den >= 1,
    ensures
        predict_terms(k, blind, g, s, p, n) == one_step_terms(k, blind, s, p, n),
    decreases n,
{
    if n > 0 && n <= 9 && s.len() == 9 {
        lemma_zero_discount_terms(k, blind, g, s, p, n - 1);
        let t = s.update(n - 1, tile_of(p));
        assert(g.num * predict_value(k, blind, g, t) == 0);
        assert(div_toward_zero(0, g.den as int) == 0);
    }
}

/// With a zero discount the return is the expected reward of the next move
/// alone: the rollout reduces to one step.
pub proof fn lemma_zero_discount(k: PolicyKind, blind: Option<int>, g: Discount, s: Seq<Tile>)
    requires
        g.num == 0,
        g.den >= 1,
    ensures
        predict_value(k, blind, g, s) == one_step_value(k, blind, s),
{
    if s.len() == 9 {
        match current_player_spec(s) {
            None => {},
            Some(p) => {
                lemma_zero_discount_terms(k, blind, g, s, p, 9);
            },
        }
    }
}


/// The coalition value of `return_value` with the return of each first move
/// replaced by the expected reward of the reply alone.
pub open spec fn one_step_return(k: PolicyKind, global: bool, s: Seq<Tile>, f: int, m: u32) -> Seq<i64> {
    let first = marginal(k, s, mask_hidden(m));
    let slot = if global { f + 1 } else { 0 };
    match current_player_spec(s) {
        None => crate::policy::zero_dist(),
        Some(p) => Seq::new(
            9,
            |a: int|
                if s[a] == Tile::Empty && first[a] > 0 {
                    div_toward_zero(
                        first[a] * one_step_value(k, blind_of(slot), s.update(a, tile_of(p))),
                        UNIT as int,
                    ) as i64
                } else {
                    0i64
                },
        ),
    }
}

/// With a zero discount, SVERL attributes one-step expected rewards: every
/// coalition value is the marginal probability of each first move times the
/// expected reward of the move that follows it.
pub proof fn lemma_sverl_one_step(k: PolicyKind, global: bool, g: Discount, s: Seq<Tile>, f: int, m: u32)
    requires
        g.num == 0,
        g.den >= 1,
    ensures
        return_value(k, global, g, s, f, m) == one_step_return(k, global, s, f, m),
{
    match current_player_spec(s) {
        None => {},
        Some(p) => {
            let slot = if global { f + 1 } else { 0 };
            assert forall|a: int| 0 <= a < 9 implies #[trigger] return_value(k, global, g, s, f, m)[a]
                == one_step_return(k, global, s, f, m)[a] by {
                lemma_zero_discount(k, blind_of(slot), g, s.update(a, tile_of(p)));
            }
            assert(return_value(k, global, g, s, f, m) =~= one_step_return(k, global, s, f, m));
        },
    }
}

} // verus!
