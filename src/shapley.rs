use vstd::prelude::*;

use crate::board::{pos_of, position_at, Grid, Pos, Tile, CELLS};
use crate::observation::{hidden_cells, hidden_upto, marginal, seen, Observation};
use crate::policy::{empty_count, zero_dist, Policy, PolicyKind};
use crate::board::{current_player_spec, tile_of};
use crate::sverl::{blind_of, div_toward_zero, divide_toward_zero, predict, predict_value, Discount, ReturnCache};
use crate::values::{bounded, CELL_BOUND, UNIT};

verus! {

/// `n!`.
pub open spec fn fact(n: nat) -> nat
    decreases n,
{
    if n == 0 {
        1
    } else {
        n * fact((n - 1) as nat)
    }
}

proof fn lemma_fact_mono(a: nat, b: nat)
    requires
        a <= b,
    ensures
        1 <= fact(a) <= fact(b),
    decreases b,
{
    if b > a {
        lemma_fact_mono(a, (b - 1) as nat);
        assert(fact((b - 1) as nat) <= b * fact((b - 1) as nat)) by (nonlinear_arith)
            requires b >= 1, fact((b - 1) as nat) >= 1;
    } else if a > 0 {
        lemma_fact_mono((a - 1) as nat, (a - 1) as nat);
        assert(1 <= a * fact((a - 1) as nat)) by (nonlinear_arith)
            requires a >= 1, fact((a - 1) as nat) >= 1;
    }
}

/// `x!`, for an `x` whose factorial fits in a `usize`.
pub fn factorial(x: usize) -> (r: usize)
    requires
        fact(x as nat) <= usize::MAX,
    ensures
        r == fact(x as nat),
{
    let mut acc: usize = 1;
    let mut i: usize = 1;
    proof {
        reveal_with_fuel(fact, 2);
    }
    while i < x
        invariant
            1 <= i,
            i <= x || i == 1,
            acc == fact(i as nat),
            fact(x as nat) <= usize::MAX,
        decreases x - i,
    {
        proof {
            lemma_fact_mono((i + 1) as nat, x as nat);
            assert(fact((i + 1) as nat) == (i + 1) * fact(i as nat));
        }
        acc = (i + 1) * acc;
        i = i + 1;
    }
    proof {
        reveal_with_fuel(fact, 2);
        if x == 0 {
            assert(fact(1) == 1);
            assert(acc == fact(x as nat));
        } else {
            assert(i == x);
        }
    }
    acc
}

/// `2^n`.
pub open spec fn two_pow(n: nat) -> nat
    decreases n,
{
    if n == 0 {
        1
    } else {
        2 * two_pow((n - 1) as nat)
    }
}

proof fn lemma_two_pow_mono(a: nat, b: nat)
    requires
        a <= b,
    ensures
        1 <= two_pow(a) <= two_pow(b),
    decreases b,
{
    if b > a {
        lemma_two_pow_mono(a, (b - 1) as nat);
    } else if a > 0 {
        lemma_two_pow_mono((a - 1) as nat, (a - 1) as nat);
    }
}

/// Whether element `t` belongs to subset number `i` of `powerset`: it does when
/// bit `t` of `i` is clear.
pub open spec fn keeps(i: usize, t: int) -> bool {
    (i >> (t as usize)) & 1usize == 0usize
}

/// The elements among the first `n` of `s` that subset number `i` keeps.
pub open spec fn subset_upto<T>(s: Seq<T>, i: usize, n: int) -> Seq<T>
    decreases n,
{
    if n <= 0 {
        Seq::empty()
    } else if keeps(i, n - 1) {
        subset_upto(s, i, n - 1).push(s[n - 1])
    } else {
        subset_upto(s, i, n - 1)
    }
}

/// All `2^n` subsets of `s`, each keeping the order of `s`; subset number `i`
/// keeps the elements whose bit in `i` is clear, so the first is `s` itself and
/// the last is empty.
pub fn powerset<T: Copy>(s: &[T]) -> (r: Vec<Vec<T>>)
    requires
        s@.len() < 32,
    ensures
        r@.len() == two_pow(s@.len() as nat),
        forall|i: int| 0 <= i < r@.len() ==> (#[trigger] r@[i])@ == subset_upto(s@, i as usize, s@.len() as int),
{
    let n = s.len();
    let mut count: usize = 1;
    let mut e: usize = 0;
    proof {
        reveal_with_fuel(two_pow, 33);
    }
    while e < n
        invariant
            e <= n < 32,
            count == two_pow(e as nat),
            two_pow(31) < 0x1_0000_0000,
        decreases n - e,
    {
        proof {
            lemma_two_pow_mono((e + 1) as nat, 31);
        }
        count = count * 2;
        e = e + 1;
    }
    let mut r: Vec<Vec<T>> = Vec::new();
    let mut i: usize = 0;
    while i < count
        invariant
            i <= count,
            n == s@.len(),
            n < 32,
            r@.len() == i,
            forall|j: int| 0 <= j < i ==> (#[trigger] r@[j])@ == subset_upto(s@, j as usize, n as int),
        decreases count - i,
    {
        let mut sub: Vec<T> = Vec::new();
        let mut t: usize = 0;
        while t < n
            invariant
                t <= n,
                n == s@.len(),
                n < 32,
                sub@ == subset_upto(s@, i, t as int),
            decreases n - t,
        {
            if (i >> t) & 1 == 0 {
                sub.push(s[t]);
            }
            t = t + 1;
        }
        r.push(sub);
        i = i + 1;
    }
    r
}


/// Number of coalitions of the nine cells.
pub const COALITIONS: u32 = 512;

/// Whether coalition `m` observes cell `i` (bit `i` of `m` is set).
pub open spec fn observed(m: u32, i: int) -> bool {
    (m >> (i as u32)) & 1u32 == 1u32
}

/// Coalition `m` with cell `f` added.
pub open spec fn with_cell(m: u32, f: int) -> u32 {
    m | (1u32 << (f as u32))
}

/// Number of observed cells among the first `n`.
pub open spec fn size_upto(m: u32, n: int) -> int
    decreases n,
{
    if n <= 0 {
        0
    } else {
        size_upto(m, n - 1) + if observed(m, n - 1) { 1int } else { 0int }
    }
}

/// Number of cells coalition `m` observes.
pub open spec fn size(m: u32) -> int {
    size_upto(m, 9)
}

/// The observed positions of coalition `m` among the first `n` cells, in order.
pub open spec fn mask_positions(m: u32, n: int) -> Seq<Pos>
    decreases n,
{
    if n <= 0 {
        Seq::empty()
    } else if observed(m, n - 1) {
        mask_positions(m, n - 1).push(pos_of(n - 1))
    } else {
        mask_positions(m, n - 1)
    }
}

/// The hidden cells of coalition `m` among the first `n`, in order.
pub open spec fn mask_hidden_upto(m: u32, n: int) -> Seq<int>
    decreases n,
{
    if n <= 0 {
        Seq::empty()
    } else if observed(m, n - 1) {
        mask_hidden_upto(m, n - 1)
    } else {
        mask_hidden_upto(m, n - 1).push(n - 1)
    }
}

/// The hidden cells of coalition `m`.
pub open spec fn mask_hidden(m: u32) -> Seq<int> {
    mask_hidden_upto(m, 9)
}

proof fn lemma_add_bit(m: u32, f: u32, j: u32)
    requires
        f < 9,
        j < 9,
        (m >> f) & 1u32 != 1u32,
    ensures
        ((m | (1u32 << f)) >> j) & 1u32 == if j == f { 1u32 } else { (m >> j) & 1u32 },
{
    assert(((m | (1u32 << f)) >> j) & 1u32 == if j == f { 1u32 } else { (m >> j) & 1u32 }) by (bit_vector)
        requires f < 9u32, j < 9u32, (m >> f) & 1u32 != 1u32;
}

proof fn lemma_add_bit_bound(m: u32, f: u32)
    requires
        f < 9,
        m < 512,
    ensures
        m | (1u32 << f) < 512,
{
    assert(m | (1u32 << f) < 512u32) by (bit_vector)
        requires f < 9u32, m < 512u32;
}

pub proof fn lemma_size_with_cell(m: u32, f: int, n: int)
    requires
        0 <= f < 9,
        0 <= n <= 9,
        !observed(m, f),
    ensures
        size_upto(with_cell(m, f), n) == size_upto(m, n) + if f < n { 1int } else { 0int },
    decreases n,
{
    if n > 0 {
        lemma_size_with_cell(m, f, n - 1);
        lemma_add_bit(m, f as u32, (n - 1) as u32);
    }
}

proof fn lemma_size_bounds(m: u32, n: int)
    requires
        0 <= n <= 9,
    ensures
        0 <= size_upto(m, n) <= n,
    decreases n,
{
    if n > 0 {
        lemma_size_bounds(m, n - 1);
    }
}

proof fn lemma_pos_of_injective(i: int, j: int)
    requires
        0 <= i < 9,
        0 <= j < 9,
        pos_of(i) == pos_of(j),
    ensures
        i == j,
{
}

proof fn lemma_mask_positions(m: u32, n: int)
    requires
        0 <= n <= 9,
    ensures
        forall|i: int| 0 <= i < 9 ==> (#[trigger] mask_positions(m, n).contains(pos_of(i)) <==> (i < n && observed(m, i))),
    decreases n,
{
    if n > 0 {
        lemma_mask_positions(m, n - 1);
        let prev = mask_positions(m, n - 1);
        assert forall|i: int| 0 <= i < 9 implies (#[trigger] mask_positions(m, n).contains(pos_of(i)) <==> (i < n && observed(m, i))) by {
            if observed(m, n - 1) {
                let cur = prev.push(pos_of(n - 1));
                if cur.contains(pos_of(i)) {
                    let k = choose|k: int| 0 <= k < cur.len() && cur[k] == pos_of(i);
                    if k == prev.len() {
                        lemma_pos_of_injective(i, n - 1);
                    } else {
                        assert(prev[k] == pos_of(i));
                        assert(prev.contains(pos_of(i)));
                    }
                }
                if i < n && observed(m, i) {
                    if i == n - 1 {
                        assert(cur[prev.len() as int] == pos_of(i));
                    } else {
                        assert(prev.contains(pos_of(i)));
                        let k = choose|k: int| 0 <= k < prev.len() && prev[k] == pos_of(i);
                        assert(cur[k] == pos_of(i));
                    }
                }
            } else {
                if i == n - 1 && prev.contains(pos_of(i)) {
                    assert(false);
                }
            }
        }
    }
}

proof fn lemma_hidden_of_mask(m: u32, n: int)
    requires
        0 <= n <= 9,
    ensures
        hidden_upto(mask_positions(m, 9), n) == mask_hidden_upto(m, n),
    decreases n,
{
    if n > 0 {
        lemma_hidden_of_mask(m, n - 1);
        lemma_mask_positions(m, 9);
        assert(seen(mask_positions(m, 9), n - 1) == observed(m, n - 1));
    }
}

impl Grid<Tile> {
    /// The observation of this board by coalition `m`.
    pub fn coalition(&self, m: u32) -> (r: Observation)
        ensures
            r.grid == *self,
            r.positions@ == mask_positions(m, 9),
            r.hidden() == mask_hidden(m),
    {
        let mut positions: Vec<Pos> = Vec::new();
        let mut i: usize = 0;
        while i < CELLS
            invariant
                i <= 9,
                positions@ == mask_positions(m, i as int),
            decreases 9 - i,
        {
            if (m >> (i as u32)) & 1u32 == 1u32 {
                positions.push(position_at(i));
            }
            i = i + 1;
        }
        proof {
            lemma_hidden_of_mask(m, 9);
        }
        Observation { positions, grid: *self }
    }

    /// Every coalition, as observations of this board, in the order of
    /// `powerset` over the positions: observation `i` keeps the positions that
    /// subset `i` keeps, so the first observes every cell and the last none.
    pub fn all_subsets(&self) -> (r: Vec<Observation>)
        ensures
            r@.len() == 512,
            forall|i: int| 0 <= i < 512 ==> (#[trigger] r@[i]).grid == *self,
            forall|i: int| 0 <= i < 512 ==> (#[trigger] r@[i]).positions@ == subset_upto(
                Seq::new(9, |j: int| pos_of(j)),
                i as usize,
                9,
            ),
    {
        let positions = self.positions();
        assert(positions@ =~= Seq::new(9, |j: int| pos_of(j)));
        let subsets = powerset(positions.as_slice());
        proof {
            reveal_with_fuel(two_pow, 10);
        }
        let mut r: Vec<Observation> = Vec::new();
        let mut i: usize = 0;
        while i < subsets.len()
            invariant
                i <= subsets@.len(),
                subsets@.len() == 512,
                positions@ == Seq::new(9, |j: int| pos_of(j)),
                forall|j: int| 0 <= j < 512 ==> (#[trigger] subsets@[j])@ == subset_upto(positions@, j as usize, 9),
                r@.len() == i,
                forall|j: int| 0 <= j < r@.len() ==> (#[trigger] r@[j]).grid == *self,
                forall|j: int| 0 <= j < r@.len() ==> (#[trigger] r@[j]).positions@ == subset_upto(positions@, j as usize, 9),
            decreases subsets@.len() - i,
        {
            let sub = subsets[i].clone();
            assert(sub@ =~= subsets@[i as int]@);
            r.push(Observation { positions: sub, grid: *self });
            i = i + 1;
        }
        r
    }
}

/// The Shapley weight of a coalition of `k` of the other eight cells:
/// `k! (8 - k)!`. Summed over the coalitions that leave a cell out these weights
/// give `9!`, so a Shapley value here is `9!` times the usual one.
pub open spec fn weight(k: int) -> int {
    (fact(k as nat) * fact((8 - k) as nat)) as int
}

/// `9!`: Shapley values are reported multiplied by this factor, which keeps them
/// exact.
pub const SHAPLEY_SCALE: i64 = 362880;

/// Largest magnitude of a coalition value that the engine accepts.
pub const VALUE_BOUND: i64 = 496011600;

/// Weighted marginal contributions of cell `f` at action `a` over the first `n`
/// coalitions, for the coalition values `v`.
pub open spec fn shapley_upto(v: spec_fn(u32) -> Seq<i64>, f: int, a: int, n: int) -> int
    decreases n,
{
    if n <= 0 {
        0
    } else {
        let m = (n - 1) as u32;
        shapley_upto(v, f, a, n - 1) + if observed(m, f) {
            0int
        } else {
            weight(size(m)) * (v(with_cell(m, f))[a] - v(m)[a])
        }
    }
}

/// `9!` times the Shapley value of cell `f` at action `a` for coalition values `v`:
/// the sum over the coalitions `m` without `f` of
/// `|m|! (8 - |m|)! (v(m + f)[a] - v(m)[a])`.
pub open spec fn shapley_value(v: spec_fn(u32) -> Seq<i64>, f: int, a: int) -> int {
    shapley_upto(v, f, a, 512)
}

pub proof fn lemma_small_facts()
    ensures
        fact(0) == 1,
        fact(1) == 1,
        fact(2) == 2,
        fact(3) == 6,
        fact(4) == 24,
        fact(5) == 120,
        fact(6) == 720,
        fact(7) == 5040,
        fact(8) == 40320,
        fact(9) == 362880,
{
    reveal_with_fuel(fact, 10);
}

proof fn lemma_weight_bound(k: int)
    requires
        0 <= k <= 8,
    ensures
        1 <= weight(k) <= 40320,
{
    lemma_small_facts();
    if k == 0 {
        assert(fact(0) * fact(8) == 40320);
        assert(weight(k) == 40320);
    } else if k == 1 {
        assert(fact(1) * fact(7) == 5040);
        assert(weight(k) == 5040);
    } else if k == 2 {
        assert(fact(2) * fact(6) == 1440);
        assert(weight(k) == 1440);
    } else if k == 3 {
        assert(fact(3) * fact(5) == 720);
        assert(weight(k) == 720);
    } else if k == 4 {
        assert(fact(4) * fact(4) == 576);
        assert(weight(k) == 576);
    } else if k == 5 {
        assert(fact(5) * fact(3) == 720);
        assert(weight(k) == 720);
    } else if k == 6 {
        assert(fact(6) * fact(2) == 1440);
        assert(weight(k) == 1440);
    } else if k == 7 {
        assert(fact(7) * fact(1) == 5040);
        assert(weight(k) == 5040);
    } else {
        assert(k == 8);
        assert(fact(8) * fact(0) == 40320);
        assert(weight(k) == 40320);
    }
}

/// The number of cells coalition `m` observes.
pub fn coalition_size(m: u32) -> (r: usize)
    ensures
        r == size(m),
        r <= 9,
{
    let mut n: usize = 0;
    let mut i: usize = 0;
    while i < CELLS
        invariant
            i <= 9,
            n == size_upto(m, i as int),
            n <= i,
        decreases 9 - i,
    {
        if (m >> (i as u32)) & 1u32 == 1u32 {
            n = n + 1;
        }
        i = i + 1;
    }
    n
}

/// The Shapley weight of coalition `m`.
fn coalition_weight(m: u32) -> (r: i64)
    requires
        size(m) <= 8,
    ensures
        r == weight(size(m)),
        1 <= r <= 40320,
{
    let k = coalition_size(m);
    proof {
        lemma_weight_bound(k as int);
        lemma_fact_mono((8 - k) as nat, 8);
        lemma_fact_mono(k as nat, 8);
        lemma_small_facts();
    }
    let a = factorial(k);
    let b = factorial(8 - k);
    (a * b) as i64
}

/// One weighted marginal contribution: `w * (with - without)` per cell.
fn weighted_difference(with: &Grid<i64>, without: &Grid<i64>, w: i64) -> (r: Grid<i64>)
    requires
        bounded(with@, VALUE_BOUND as int),
        bounded(without@, VALUE_BOUND as int),
        1 <= w <= 40320,
    ensures
        forall|a: int| 0 <= a < 9 ==> #[trigger] r@[a] == w * (with@[a] - without@[a]),
        bounded(r@, 40320 * 2 * VALUE_BOUND),
{
    let mut cells: [i64; 9] = [0i64; 9];
    let mut a: usize = 0;
    while a < CELLS
        invariant
            a <= 9,
            bounded(with@, VALUE_BOUND as int),
            bounded(without@, VALUE_BOUND as int),
            1 <= w <= 40320,
            forall|b: int| 0 <= b < a ==> #[trigger] cells@[b] == w * (with@[b] - without@[b]),
            forall|b: int| 0 <= b < a ==> -40320 * 2 * VALUE_BOUND <= #[trigger] cells@[b] <= 40320 * 2 * VALUE_BOUND,
        decreases 9 - a,
    {
        let d = with.cells[a] - without.cells[a];
        assert(-40320 * 2 * VALUE_BOUND <= w * d <= 40320 * 2 * VALUE_BOUND) by (nonlinear_arith)
            requires 1 <= w <= 40320, -2 * VALUE_BOUND <= d <= 2 * VALUE_BOUND;
        cells[a] = w * d;
        a = a + 1;
    }
    Grid { cells }
}


/// How a coalition is valued.
pub enum Explainer {
    /// The policy's action distribution marginalized over the cells the
    /// coalition does not observe.
    Distribution,
    /// For each first move, its marginalized probability times the return that
    /// follows it. The rollout follows the policy itself (`global` false) or the
    /// policy blinded to the explained cell at every later move (`global` true).
    Return { global: bool, gamma: Discount, cache: ReturnCache },
}

/// What an explainer computes, without its memo tables.
pub enum ExplainerKind {
    Distribution,
    Return { global: bool, gamma: Discount },
}

impl Explainer {
    /// The explainer's memo tables agree with policy kind `k`.
    pub open spec fn wf(&self, k: PolicyKind) -> bool {
        match self {
            Explainer::Distribution => true,
            Explainer::Return { global, gamma, cache } => gamma.valid() && cache.wf(k, *gamma),
        }
    }

    pub open spec fn kind(&self) -> ExplainerKind {
        match self {
            Explainer::Distribution => ExplainerKind::Distribution,
            Explainer::Return { global, gamma, cache } => ExplainerKind::Return { global: *global, gamma: *gamma },
        }
    }

    /// Whether the value of a coalition depends on the cell being explained.
    pub open spec fn per_feature_spec(&self) -> bool {
        match self {
            Explainer::Distribution => false,
            Explainer::Return { global, gamma, cache } => *global,
        }
    }

    pub fn per_feature(&self) -> (r: bool)
        ensures
            r == self.per_feature_spec(),
    {
        match self {
            Explainer::Distribution => false,
            Explainer::Return { global, gamma, cache } => *global,
        }
    }
}

/// The return-weighted value of coalition `m` on board `s` when explaining
/// cell `f`: for each empty cell `a` with positive marginalized probability
/// `P[a]`, `P[a]` times the return after playing `a` (rounded toward zero to
/// whole units); zero elsewhere, and everywhere once the game is over.
pub open spec fn return_value(k: PolicyKind, global: bool, g: Discount, s: Seq<Tile>, f: int, m: u32) -> Seq<i64> {
    let first = marginal(k, s, mask_hidden(m));
    let slot = if global { f + 1 } else { 0 };
    match current_player_spec(s) {
        None => zero_dist(),
        Some(p) => Seq::new(
            9,
            |a: int|
                if s[a] == Tile::Empty && first[a] > 0 {
                    div_toward_zero(
                        first[a] * predict_value(k, blind_of(slot), g, s.update(a, tile_of(p))),
                        UNIT as int,
                    ) as i64
                } else {
                    0i64
                },
        ),
    }
}

/// The value of coalition `m` on board `s` when explaining cell `f`.
pub open spec fn coalition_value(e: ExplainerKind, k: PolicyKind, s: Seq<Tile>, f: int, m: u32) -> Seq<i64> {
    match e {
        ExplainerKind::Distribution => marginal(k, s, mask_hidden(m)),
        ExplainerKind::Return { global, gamma } => return_value(k, global, gamma, s, f, m),
    }
}

/// The coalition values seen when explaining cell `f`.
pub open spec fn values_for(e: ExplainerKind, k: PolicyKind, s: Seq<Tile>, f: int) -> spec_fn(u32) -> Seq<i64> {
    |m: u32| coalition_value(e, k, s, f, m)
}

/// Every filled entry of `memo` holds the value of its coalition.
pub open spec fn memo_ok(memo: Seq<Option<Grid<i64>>>, e: ExplainerKind, k: PolicyKind, s: Seq<Tile>, f: int) -> bool {
    &&& memo.len() == 512
    &&& forall|m: int|
        0 <= m < 512 && (#[trigger] memo[m]).is_some() ==> memo[m].unwrap()@ == coalition_value(e, k, s, f, m as u32)
            && bounded(memo[m].unwrap()@, VALUE_BOUND as int)
}

proof fn lemma_shared_values(explainer: &Explainer, k: PolicyKind, s: Seq<Tile>)
    ensures
        !explainer.per_feature_spec() ==> forall|g1: int, g2: int, m: u32|
            #[trigger] coalition_value(explainer.kind(), k, s, g1, m) == #[trigger] coalition_value(explainer.kind(), k, s, g2, m),
{
}

proof fn lemma_size_without(m: u32, f: int)
    requires
        0 <= f < 9,
        !observed(m, f),
    ensures
        size(m) <= 8,
{
    lemma_size_with_cell(m, f, 9);
    lemma_size_bounds(with_cell(m, f), 9);
}

impl Grid<Tile> {
    /// The value of coalition `m` when explaining cell `f`.
    fn coalition_worth(&self, explainer: &mut Explainer, policy: &mut Policy, f: usize, m: u32) -> (r: Grid<i64>)
        requires
            old(explainer).wf(old(policy).kind()),
            old(policy).wf(),
            f < 9,
        ensures
            final(explainer).wf(old(policy).kind()),
            final(explainer).kind() == old(explainer).kind(),
            final(policy).wf(),
            final(policy).kind() == old(policy).kind(),
            r@ == coalition_value(old(explainer).kind(), old(policy).kind(), self@, f as int, m),
            bounded(r@, VALUE_BOUND as int),
    {
        match explainer {
            Explainer::Distribution => {
                let observation = self.coalition(m);
                observation.value(policy)
            },
            Explainer::Return { global, gamma, cache } => {
                let ghost k = policy.kind();
                let player = match self.current_player() {
                    None => {
                        let z = Grid::<i64>::zero();
                        assert(z@ =~= zero_dist());
                        return z;
                    },
                    Some(p) => p,
                };
                let first = self.coalition(m).value(policy);
                let slot: usize = if *global { f + 1 } else { 0 };
                let mut cells: [i64; 9] = [0i64; 9];
                let mut a: usize = 0;
                while a < CELLS
                    invariant
                        a <= 9,
                        f < 9,
                        slot == if *global { f + 1 } else { 0 },
                        policy.wf(),
                        policy.kind() == k,
                        gamma.valid(),
                        cache.wf(k, *gamma),
                        current_player_spec(self@) == Some(player),
                        first@ == marginal(k, self@, mask_hidden(m)),
                        forall|b: int| 0 <= b < 9 ==> 0 <= #[trigger] first@[b] <= UNIT,
                        forall|b: int| 0 <= b < a ==> #[trigger] cells@[b] == return_value(k, *global, *gamma, self@, f as int, m)[b],
                        forall|b: int| a <= b < 9 ==> #[trigger] cells@[b] == 0,
                        bounded(cells@, VALUE_BOUND as int),
                    decreases 9 - a,
                {
                    let p = first.cells[a];
                    if self.cells[a] == Tile::Empty && p > 0 {
                        let mut next = *self;
                        next.cells[a] = Tile::from(player);
                        assert(next@ == self@.update(a as int, tile_of(player)));
                        let v = predict(&next, cache, slot, *gamma, policy);
                        assert(empty_count(next@) <= 8);
                        assert(-(p * 8 * UNIT) <= p * v <= p * 8 * UNIT) by (nonlinear_arith)
                            requires 0 <= p, -(8 * UNIT) <= v <= 8 * UNIT;
                        assert(p * 8 * UNIT <= UNIT * 8 * UNIT) by (nonlinear_arith)
                            requires 0 <= p <= UNIT;
                        let c = divide_toward_zero(p * v, UNIT);
                        proof {
                            crate::sverl::lemma_div_toward_zero_bound((p * v) as int, UNIT as int, p * 8 * UNIT);
                            let mag = if p * v >= 0 { (p * v) as int } else { -(p * v) };
                            assert(mag / (UNIT as int) <= 8 * UNIT) by (nonlinear_arith)
                                requires mag <= p * 8 * UNIT, 0 <= p <= UNIT, mag >= 0;
                        }
                        cells[a] = c;
                    }
                    a = a + 1;
                }
                let r = Grid { cells };
                assert(r@ =~= return_value(k, *global, *gamma, self@, f as int, m));
                r
            },
        }
    }

    /// The value of coalition `m`, from `memo` when it is there.
    fn memo_worth(
        &self,
        explainer: &mut Explainer,
        policy: &mut Policy,
        memo: &mut Vec<Option<Grid<i64>>>,
        f: usize,
        m: u32,
    ) -> (r: Grid<i64>)
        requires
            old(explainer).wf(old(policy).kind()),
            old(policy).wf(),
            f < 9,
            m < 512,
            memo_ok(old(memo)@, old(explainer).kind(), old(policy).kind(), self@, f as int),
        ensures
            final(explainer).wf(old(policy).kind()),
            final(explainer).kind() == old(explainer).kind(),
            final(policy).wf(),
            final(policy).kind() == old(policy).kind(),
            memo_ok(final(memo)@, old(explainer).kind(), old(policy).kind(), self@, f as int),
            r@ == coalition_value(old(explainer).kind(), old(policy).kind(), self@, f as int, m),
            bounded(r@, VALUE_BOUND as int),
    {
        let i = m as usize;
        match memo[i] {
            Some(v) => {
                assert(memo@[i as int].is_some());
                v
            },
            None => {
                let v = self.coalition_worth(explainer, policy, f, m);
                memo.set(i, Some(v));
                v
            },
        }
    }

    /// The Shapley attribution of every cell under `explainer`: entry `f` holds,
    /// for each action, `SHAPLEY_SCALE` times the Shapley value of observing
    /// cell `f` (see `shapley_value`). Coalition values are memoized for the whole
    /// run, or for one cell at a time when they depend on the cell.
    pub fn shapley_with_value(&self, explainer: &mut Explainer, policy: &mut Policy) -> (r: Grid<Grid<i64>>)
        requires
            old(explainer).wf(old(policy).kind()),
            old(policy).wf(),
        ensures
            final(explainer).wf(old(policy).kind()),
            final(explainer).kind() == old(explainer).kind(),
            final(policy).wf(),
            final(policy).kind() == old(policy).kind(),
            forall|f: int, a: int|
                0 <= f < 9 && 0 <= a < 9 ==> #[trigger] r@[f]@[a] == shapley_value(
                    values_for(old(explainer).kind(), old(policy).kind(), self@, f),
                    f,
                    a,
                ),
            forall|f: int| 0 <= f < 9 ==> bounded(#[trigger] r@[f]@, CELL_BOUND as int),
    {
        let ghost e = explainer.kind();
        let ghost k = policy.kind();
        let shared = !explainer.per_feature();
        proof {
            lemma_shared_values(explainer, k, self@);
        }
        let mut memo: Vec<Option<Grid<i64>>> = Vec::new();
        let mut j: usize = 0;
        while j < 512
            invariant
                j <= 512,
                memo@.len() == j,
                forall|m: int| 0 <= m < j ==> (#[trigger] memo@[m]).is_none(),
            decreases 512 - j,
        {
            memo.push(None);
            j = j + 1;
        }
        let mut out: [Grid<i64>; 9] = [Grid::<i64>::zero(); 9];
        let mut f: usize = 0;
        while f < CELLS
            invariant
                f <= 9,
                explainer.wf(k),
                explainer.kind() == e,
                policy.wf(),
                policy.kind() == k,
                shared == !explainer.per_feature_spec(),
                shared ==> memo_ok(memo@, e, k, self@, f as int),
                shared ==> forall|g1: int, g2: int, m: u32| #[trigger] coalition_value(e, k, self@, g1, m) == #[trigger] coalition_value(e, k, self@, g2, m),
                forall|g: int| 0 <= g < f ==> bounded(#[trigger] out@[g]@, CELL_BOUND as int),
                forall|g: int, a: int|
                    0 <= g < f && 0 <= a < 9 ==> #[trigger] out@[g]@[a] == shapley_value(values_for(e, k, self@, g), g, a),
            decreases 9 - f,
        {
            if !shared {
                memo = Vec::new();
                let mut j: usize = 0;
                while j < 512
                    invariant
                        j <= 512,
                        memo@.len() == j,
                        forall|m: int| 0 <= m < j ==> (#[trigger] memo@[m]).is_none(),
                    decreases 512 - j,
                {
                    memo.push(None);
                    j = j + 1;
                }
            }
            let mut acc = Grid::<i64>::zero();
            let mut m: u32 = 0;
            while m < COALITIONS
                invariant
                    m <= 512,
                    f < 9,
                    explainer.wf(k),
                    explainer.kind() == e,
                    policy.wf(),
                    policy.kind() == k,
                    memo_ok(memo@, e, k, self@, f as int),
                    forall|a: int| 0 <= a < 9 ==> #[trigger] acc@[a] == shapley_upto(values_for(e, k, self@, f as int), f as int, a, m as int),
                    bounded(acc@, m * 40320 * 2 * VALUE_BOUND),
                decreases 512 - m,
            {
                if (m >> (f as u32)) & 1u32 != 1u32 {
                    proof {
                        lemma_size_without(m, f as int);
                        lemma_add_bit_bound(m, f as u32);
                    }
                    let w = coalition_weight(m);
                    let with = self.memo_worth(explainer, policy, &mut memo, f, m | (1u32 << (f as u32)));
                    let without = self.memo_worth(explainer, policy, &mut memo, f, m);
                    let d = weighted_difference(&with, &without, w);
                    assert(bounded(acc@, CELL_BOUND as int));
                    assert(bounded(d@, CELL_BOUND as int));
                    acc = acc.add(&d);
                }
                m = m + 1;
            }
            out[f] = acc;
            assert(bounded(acc@, CELL_BOUND as int));
            proof {
                if shared {
                    assert forall|m: int| 0 <= m < 512 && (#[trigger] memo@[m]).is_some() implies memo@[m].unwrap()@ == coalition_value(e, k, self@, f + 1, m as u32) by {
                        assert(coalition_value(e, k, self@, f as int, m as u32) == coalition_value(e, k, self@, f + 1, m as u32));
                    }
                }
            }
            f = f + 1;
        }
        Grid { cells: out }
    }

    /// The Shapley attribution of the policy's action distribution: entry `f`
    /// gives, per action, how observing cell `f` shifts its probability, times
    /// `SHAPLEY_SCALE`, in units of `1 / UNIT`.
    pub fn shapley(&self, policy: &mut Policy) -> (r: Grid<Grid<i64>>)
        requires
            old(policy).wf(),
        ensures
            final(policy).wf(),
            final(policy).kind() == old(policy).kind(),
            forall|f: int, a: int|
                0 <= f < 9 && 0 <= a < 9 ==> #[trigger] r@[f]@[a] == shapley_value(
                    values_for(ExplainerKind::Distribution, old(policy).kind(), self@, f),
                    f,
                    a,
                ),
    {
        let mut explainer = Explainer::Distribution;
        self.shapley_with_value(&mut explainer, policy)
    }
}


/// The coalition that observes every cell but `f` hides exactly `f`.
pub proof fn lemma_blind_hidden(f: u32)
    requires
        f < 9,
    ensures
        (1u32 << f) <= 256,
        511u32 - (1u32 << f) < 512,
        mask_hidden((511u32 - (1u32 << f)) as u32) == seq![f as int],
{
    let m = (511u32 - (1u32 << f)) as u32;
    assert((1u32 << f) <= 256u32 && 511u32 - (1u32 << f) < 512u32) by (bit_vector)
        requires f < 9u32;
    assert forall|i: int| 0 <= i < 9 implies #[trigger] observed(m, i) == (i != f) by {
        let j = i as u32;
        assert(((((511u32 - (1u32 << f)) as u32) >> j) & 1u32 == 1u32) == (j != f)) by (bit_vector)
            requires f < 9u32, j < 9u32;
    }
    lemma_blind_hidden_upto(m, f as int, 9);
}

proof fn lemma_blind_hidden_upto(m: u32, f: int, n: int)
    requires
        0 <= f < 9,
        0 <= n <= 9,
        forall|i: int| 0 <= i < 9 ==> #[trigger] observed(m, i) == (i != f),
    ensures
        mask_hidden_upto(m, n) == if f < n { seq![f] } else { Seq::<int>::empty() },
    decreases n,
{
    if n > 0 {
        lemma_blind_hidden_upto(m, f, n - 1);
        assert(observed(m, n - 1) == (n - 1 != f));
        if f < n - 1 {
        } else if f == n - 1 {
            assert(Seq::<int>::empty().push(f) =~= seq![f]);
        }
    }
}

/// Shapley values depend on the coalition values alone.
pub proof fn lemma_shapley_upto_equal(v1: spec_fn(u32) -> Seq<i64>, v2: spec_fn(u32) -> Seq<i64>, f: int, a: int, n: int)
    requires
        forall|m: u32| #[trigger] v1(m) == v2(m),
    ensures
        shapley_upto(v1, f, a, n) == shapley_upto(v2, f, a, n),
    decreases n,
{
    if n > 0 {
        lemma_shapley_upto_equal(v1, v2, f, a, n - 1);
        let m = (n - 1) as u32;
        assert(v1(m) == v2(m));
        assert(v1(with_cell(m, f)) == v2(with_cell(m, f)));
    }
}

} // verus!
