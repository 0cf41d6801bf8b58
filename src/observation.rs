use vstd::prelude::*;

use crate::board::{all_positions, pos_of, position_at, Grid, Pos, Tile, CELLS};
use crate::policy::{dist_of, lemma_dist_range, pow3, Policy, PolicyKind};
use crate::values::{bounded, lemma_sum_bounds, lemma_sum_nonneg, nonneg, sum_upto, total, CELL_BOUND, UNIT};
use crate::policy::{lemma_distribution_valid, lemma_terminal_zero};
use crate::board::current_player_spec;

verus! {

/// A board of which only some positions are visible.
#[derive(Clone, Debug, PartialEq, Eq, Hash)]
pub struct Observation {
    pub positions: Vec<Pos>,
    pub grid: Grid<Tile>,
}

/// Whether the cell with index `i` is among the observed positions.
pub open spec fn seen(positions: Seq<Pos>, i: int) -> bool {
    positions.contains(pos_of(i))
}

/// Indices of the hidden cells among the first `n`, in increasing order.
pub open spec fn hidden_upto(positions: Seq<Pos>, n: int) -> Seq<int>
    decreases n,
{
    if n <= 0 {
        Seq::empty()
    } else if seen(positions, n - 1) {
        hidden_upto(positions, n - 1)
    } else {
        hidden_upto(positions, n - 1).push(n - 1)
    }
}

/// Indices of the hidden cells, in increasing order.
pub open spec fn hidden_cells(positions: Seq<Pos>) -> Seq<int> {
    hidden_upto(positions, 9)
}

/// The tile a base-3 digit stands for.
pub open spec fn tile_of_digit(d: int) -> Tile {
    if d == 0 {
        Tile::Empty
    } else if d == 1 {
        Tile::X
    } else {
        Tile::O
    }
}

/// Board `s` with hidden cell `hidden[t]` set to digit `t` of `i` in base 3,
/// for the first `n` hidden cells.
pub open spec fn complete_upto(s: Seq<Tile>, hidden: Seq<int>, i: int, n: int) -> Seq<Tile>
    decreases n,
{
    if n <= 0 {
        s
    } else {
        complete_upto(s, hidden, i, n - 1).update(
            hidden[n - 1],
            tile_of_digit((i / pow3((n - 1) as nat)) % 3),
        )
    }
}

/// The `i`-th completion of board `s` over the cells `hidden`.
pub open spec fn completion(s: Seq<Tile>, hidden: Seq<int>, i: int) -> Seq<Tile> {
    complete_upto(s, hidden, i, hidden.len() as int)
}

/// Sum at cell `a` of the distributions of policy kind `k` over the first `n`
/// completions.
pub open spec fn completion_sum(k: PolicyKind, s: Seq<Tile>, hidden: Seq<int>, a: int, n: int) -> int
    decreases n,
{
    if n <= 0 {
        0
    } else {
        completion_sum(k, s, hidden, a, n - 1) + dist_of(k, completion(s, hidden, n - 1))[a]
    }
}

/// The distribution of policy kind `k` averaged over all completions of `s`
/// over the cells `hidden`, each completion weighted alike.
pub open spec fn marginal(k: PolicyKind, s: Seq<Tile>, hidden: Seq<int>) -> Seq<i64> {
    let m = pow3(hidden.len() as nat);
    Seq::new(9, |a: int| (completion_sum(k, s, hidden, a, m) / m) as i64)
}

pub proof fn lemma_hidden_upto(positions: Seq<Pos>, n: int)
    requires
        0 <= n <= 9,
    ensures
        hidden_upto(positions, n).len() <= n,
        forall|k: int| 0 <= k < hidden_upto(positions, n).len() ==> 0 <= #[trigger] hidden_upto(positions, n)[k] < n,
    decreases n,
{
    if n > 0 {
        lemma_hidden_upto(positions, n - 1);
    }
}

pub proof fn lemma_pow3_mono(a: nat, b: nat)
    requires
        a <= b,
    ensures
        1 <= pow3(a) <= pow3(b),
    decreases b,
{
    if b > a {
        lemma_pow3_mono(a, (b - 1) as nat);
    } else {
        lemma_pow3_pos(a);
    }
}

pub proof fn lemma_pow3_pos(a: nat)
    ensures
        1 <= pow3(a),
    decreases a,
{
    if a > 0 {
        lemma_pow3_pos((a - 1) as nat);
    }
}

impl Observation {
    /// Indices of the hidden cells.
    pub open spec fn hidden(&self) -> Seq<int> {
        hidden_cells(self.positions@)
    }

    /// The indices of the cells that are not observed, in row-major order.
    pub fn hidden_indices(&self) -> (r: Vec<usize>)
        ensures
            r@.len() == self.hidden().len(),
            forall|k: int| 0 <= k < r@.len() ==> #[trigger] r@[k] as int == self.hidden()[k],
    {
        let mut r: Vec<usize> = Vec::new();
        let mut i: usize = 0;
        while i < CELLS
            invariant
                i <= 9,
                r@.len() == hidden_upto(self.positions@, i as int).len(),
                forall|k: int| 0 <= k < r@.len() ==> #[trigger] r@[k] as int == hidden_upto(self.positions@, i as int)[k],
            decreases 9 - i,
        {
            let p = position_at(i);
            let mut found = false;
            let mut j: usize = 0;
            while j < self.positions.len()
                invariant
                    j <= self.positions@.len(),
                    p == pos_of(i as int),
                    found == exists|m: int| 0 <= m < j && self.positions@[m] == p,
                decreases self.positions@.len() - j,
            {
                if self.positions[j] == p {
                    found = true;
                }
                j = j + 1;
            }
            if !found {
                r.push(i);
            }
            i = i + 1;
        }
        r
    }

    /// Removes `pos` from the observed positions; returns whether it was there.
    /// The last position takes the place of the removed one.
    pub fn subtract(&mut self, pos: Pos) -> (r: bool)
        ensures
            r == old(self).positions@.contains(pos),
            final(self).grid == old(self).grid,
            !r ==> final(self).positions@ == old(self).positions@,
            r ==> exists|i: int|
                0 <= i < old(self).positions@.len() && old(self).positions@[i] == pos && (forall|j: int|
                    0 <= j < i ==> old(self).positions@[j] != pos) && final(self).positions@
                    == old(self).positions@.update(i, old(self).positions@.last()).drop_last(),
    {
        let mut i: usize = 0;
        while i < self.positions.len()
            invariant
                i <= self.positions@.len(),
                self.positions@ == old(self).positions@,
                self.grid == old(self).grid,
                forall|j: int| 0 <= j < i ==> self.positions@[j] != pos,
            decreases self.positions@.len() - i,
        {
            if self.positions[i] == pos {
                let ghost before = self.positions@;
                self.positions.swap_remove(i);
                assert(self.positions@ == before.update(i as int, before.last()).drop_last());
                return true;
            }
            i = i + 1;
        }
        false
    }

    /// Board `grid` with the hidden cells `hidden` set after the digits of `i`.
    fn complete(&self, hidden: &Vec<usize>, i: usize) -> (r: Grid<Tile>)
        requires
            hidden@.len() <= 9,
            forall|k: int| 0 <= k < hidden@.len() ==> #[trigger] hidden@[k] < 9,
        ensures
            r@ == complete_upto(self.grid@, hidden@.map_values(|h: usize| h as int), i as int, hidden@.len() as int),
    {
        let ghost hs = hidden@.map_values(|h: usize| h as int);
        let mut g = self.grid;
        let mut t: usize = 0;
        let mut pw: usize = 1;
        while t < hidden.len()
            invariant
                t <= hidden@.len() <= 9,
                forall|k: int| 0 <= k < hidden@.len() ==> #[trigger] hidden@[k] < 9,
                hs == hidden@.map_values(|h: usize| h as int),
                pw == pow3(t as nat),
                1 <= pw <= 19683,
                g@ == complete_upto(self.grid@, hs, i as int, t as int),
            decreases hidden@.len() - t,
        {
            let d = (i / pw) % 3;
            let tile = if d == 0 {
                Tile::Empty
            } else if d == 1 {
                Tile::X
            } else {
                Tile::O
            };
            g.cells[hidden[t]] = tile;
            proof {
                lemma_pow3_mono((t + 1) as nat, 9);
                reveal_with_fuel(pow3, 10);
            }
            pw = pw * 3;
            t = t + 1;
        }
        g
    }
}


impl Observation {
    /// Every board that agrees with `grid` on the observed cells: the hidden
    /// cells take each assignment of Empty, X, O, the `t`-th hidden cell following
    /// digit `t` of the completion's number in base 3.
    pub fn possible_states(&self) -> (r: Vec<Grid<Tile>>)
        ensures
            r@.len() == pow3(self.hidden().len() as nat),
            forall|i: int| 0 <= i < r@.len() ==> (#[trigger] r@[i])@ == completion(self.grid@, self.hidden(), i),
    {
        let hidden = self.hidden_indices();
        proof {
            lemma_hidden_upto(self.positions@, 9);
            assert(hidden@.map_values(|h: usize| h as int) =~= self.hidden());
            lemma_pow3_mono(hidden@.len() as nat, 9);
            reveal_with_fuel(pow3, 10);
        }
        let n = power_of_three(hidden.len());
        let mut r: Vec<Grid<Tile>> = Vec::new();
        let mut i: usize = 0;
        while i < n
            invariant
                i <= n,
                n == pow3(hidden@.len() as nat),
                hidden@.len() <= 9,
                forall|k: int| 0 <= k < hidden@.len() ==> #[trigger] hidden@[k] < 9,
                hidden@.map_values(|h: usize| h as int) == self.hidden(),
                r@.len() == i,
                forall|j: int| 0 <= j < i ==> (#[trigger] r@[j])@ == completion(self.grid@, self.hidden(), j),
            decreases n - i,
        {
            r.push(self.complete(&hidden, i));
            i = i + 1;
        }
        r
    }

    /// The policy's distribution averaged over `possible_states`, each weighted
    /// alike (cells truncated to whole units).
    pub fn value(&self, policy: &mut Policy) -> (r: Grid<i64>)
        requires
            old(policy).wf(),
        ensures
            final(policy).wf(),
            final(policy).kind() == old(policy).kind(),
            r@ == marginal(old(policy).kind(), self.grid@, self.hidden()),
            forall|a: int| 0 <= a < 9 ==> 0 <= #[trigger] r@[a] <= UNIT,
    {
        let ghost k = policy.kind();
        let states = self.possible_states();
        let n = states.len();
        proof {
            lemma_hidden_upto(self.positions@, 9);
            lemma_pow3_mono(self.hidden().len() as nat, 9);
            reveal_with_fuel(pow3, 10);
        }
        let mut acc = Grid::<i64>::zero();
        let mut i: usize = 0;
        while i < n
            invariant
                i <= n,
                n == states@.len(),
                1 <= n <= 19683,
                n == pow3(self.hidden().len() as nat),
                policy.wf(),
                policy.kind() == k,
                forall|j: int| 0 <= j < n ==> (#[trigger] states@[j])@ == completion(self.grid@, self.hidden(), j),
                forall|a: int| 0 <= a < 9 ==> #[trigger] acc@[a] == completion_sum(k, self.grid@, self.hidden(), a, i as int),
                forall|a: int| 0 <= a < 9 ==> 0 <= #[trigger] acc@[a] <= i * UNIT,
            decreases n - i,
        {
            let d = policy.evaluate(&states[i]);
            proof {
                lemma_dist_range(k, states@[i as int]@);
            }
            assert(bounded(acc@, CELL_BOUND as int));
            assert(bounded(d@, CELL_BOUND as int));
            acc = acc.add(&d);
            i = i + 1;
        }
        let mut cells: [i64; 9] = [0i64; 9];
        let mut a: usize = 0;
        while a < CELLS
            invariant
                a <= 9,
                1 <= n <= 19683,
                n == pow3(self.hidden().len() as nat),
                forall|b: int| 0 <= b < 9 ==> #[trigger] acc@[b] == completion_sum(k, self.grid@, self.hidden(), b, n as int),
                forall|b: int| 0 <= b < 9 ==> 0 <= #[trigger] acc@[b] <= n * UNIT,
                forall|b: int| 0 <= b < a ==> #[trigger] cells@[b] == marginal(k, self.grid@, self.hidden())[b],
                forall|b: int| 0 <= b < a ==> 0 <= #[trigger] cells@[b] <= UNIT,
            decreases 9 - a,
        {
            let c = acc.cells[a];
            assert(0 <= acc@[a as int] <= n * UNIT);
            assert(c == acc@[a as int]);
            proof {
                let ci = c as int;
                let ni = n as int;
                assert(0 <= ci / ni <= UNIT) by (nonlinear_arith)
                    requires 0 <= ci <= ni * UNIT, ni >= 1;
            }
            cells[a] = c / (n as i64);
            assert(cells@[a as int] == marginal(k, self.grid@, self.hidden())[a as int]);
            a = a + 1;
        }
        let r = Grid { cells };
        r
    }
}

/// `3^e`.
pub fn power_of_three(e: usize) -> (r: usize)
    requires
        e <= 9,
    ensures
        r == pow3(e as nat),
{
    let mut r: usize = 1;
    let mut i: usize = 0;
    while i < e
        invariant
            i <= e <= 9,
            r == pow3(i as nat),
            r <= 19683,
        decreases e - i,
    {
        proof {
            lemma_pow3_mono((i + 1) as nat, 9);
            reveal_with_fuel(pow3, 10);
        }
        r = r * 3;
        i = i + 1;
    }
    r
}


proof fn lemma_all_seen(positions: Seq<Pos>, n: int)
    requires
        0 <= n <= 9,
        positions.len() == 9,
        forall|i: int| 0 <= i < 9 ==> #[trigger] positions[i] == pos_of(i),
    ensures
        hidden_upto(positions, n).len() == 0,
    decreases n,
{
    if n > 0 {
        lemma_all_seen(positions, n - 1);
        assert(positions[n - 1] == pos_of(n - 1));
        assert(seen(positions, n - 1));
    }
}

/// With every cell observed there is exactly one completion, the board itself,
/// so the marginal distribution is the policy's own distribution.
pub proof fn lemma_full_observation_value(k: PolicyKind, s: Seq<Tile>, positions: Seq<Pos>)
    requires
        hidden_cells(positions).len() == 0,
    ensures
        marginal(k, s, hidden_cells(positions)) == dist_of(k, s),
{
    lemma_nothing_hidden(k, s, hidden_cells(positions));
}

/// Averaging over no hidden cell gives the distribution itself.
pub proof fn lemma_nothing_hidden(k: PolicyKind, s: Seq<Tile>, h: Seq<int>)
    requires
        h.len() == 0,
    ensures
        marginal(k, s, h) == dist_of(k, s),
{
    assert(pow3(0) == 1);
    assert(completion(s, h, 0) == s);
    lemma_dist_range(k, s);
    assert forall|a: int| 0 <= a < 9 implies #[trigger] marginal(k, s, h)[a] == dist_of(k, s)[a] by {
        reveal_with_fuel(completion_sum, 2);
        assert(completion_sum(k, s, h, a, 1) == dist_of(k, s)[a]);
    }
    assert(marginal(k, s, h) =~= dist_of(k, s));
}

impl Grid<Tile> {
    /// The observation that sees every cell of the board.
    pub fn full_observation(&self) -> (r: Observation)
        ensures
            r.grid == *self,
            r.positions@.len() == 9,
            forall|i: int| 0 <= i < 9 ==> #[trigger] r.positions@[i] == pos_of(i),
            r.hidden().len() == 0,
    {
        let positions = all_positions();
        proof {
            lemma_all_seen(positions@, 9);
        }
        Observation { positions, grid: *self }
    }
}


/// Sum of the first `n` entries of a sequence of integers.
pub open spec fn isum(v: Seq<int>, n: int) -> int
    decreases n,
{
    if n <= 0 {
        0
    } else {
        isum(v, n - 1) + v[n - 1]
    }
}

/// The per-cell sums over the first `n` completions.
pub open spec fn completion_sums(k: PolicyKind, s: Seq<Tile>, hidden: Seq<int>, n: int) -> Seq<int> {
    Seq::new(9, |a: int| completion_sum(k, s, hidden, a, n))
}

/// Every distribution sums to at most `UNIT`.
pub proof fn lemma_dist_total(k: PolicyKind, s: Seq<Tile>)
    requires
        s.len() == 9,
    ensures
        total(dist_of(k, s)) <= UNIT,
        nonneg(dist_of(k, s)),
{
    lemma_dist_range(k, s);
    if current_player_spec(s).is_some() {
        lemma_distribution_valid(k, s);
    } else {
        lemma_terminal_zero(k, s);
        lemma_sum_bounds(dist_of(k, s), 9, 0);
    }
}

proof fn lemma_isum_add(v: Seq<int>, u: Seq<int>, w: Seq<i64>, n: int)
    requires
        0 <= n <= 9,
        forall|a: int| 0 <= a < 9 ==> #[trigger] v[a] == u[a] + w[a],
    ensures
        isum(v, n) == isum(u, n) + sum_upto(w, n),
    decreases n,
{
    if n > 0 {
        lemma_isum_add(v, u, w, n - 1);
    }
}

pub proof fn lemma_completion_len(s: Seq<Tile>, hidden: Seq<int>, i: int, n: int)
    requires
        0 <= n <= hidden.len(),
        forall|t: int| 0 <= t < hidden.len() ==> 0 <= #[trigger] hidden[t] < s.len(),
    ensures
        complete_upto(s, hidden, i, n).len() == s.len(),
    decreases n,
{
    if n > 0 {
        lemma_completion_len(s, hidden, i, n - 1);
    }
}

proof fn lemma_completion_sums(k: PolicyKind, s: Seq<Tile>, hidden: Seq<int>, n: int)
    requires
        0 <= n,
        s.len() == 9,
        forall|t: int| 0 <= t < hidden.len() ==> 0 <= #[trigger] hidden[t] < 9,
    ensures
        isum(completion_sums(k, s, hidden, n), 9) <= n * UNIT,
        forall|a: int| 0 <= a < 9 ==> 0 <= #[trigger] completion_sum(k, s, hidden, a, n),
    decreases n,
{
    if n > 0 {
        lemma_completion_sums(k, s, hidden, n - 1);
        let d = dist_of(k, completion(s, hidden, n - 1));
        lemma_completion_len(s, hidden, n - 1, hidden.len() as int);
        lemma_dist_total(k, completion(s, hidden, n - 1));
        lemma_isum_add(completion_sums(k, s, hidden, n), completion_sums(k, s, hidden, n - 1), d, 9);
        assert(isum(completion_sums(k, s, hidden, n - 1), 9) <= (n - 1) * UNIT);
        assert(total(d) <= UNIT);
        assert(isum(completion_sums(k, s, hidden, n), 9) == isum(completion_sums(k, s, hidden, n - 1), 9) + total(d));
        assert((n - 1) * UNIT + UNIT == n * UNIT);
        assert forall|a: int| 0 <= a < 9 implies 0 <= #[trigger] completion_sum(k, s, hidden, a, n) by {
            assert(0 <= d[a]);
            assert(0 <= completion_sum(k, s, hidden, a, n - 1));
        }
    } else {
        lemma_isum_zero(completion_sums(k, s, hidden, n), 9);
    }
}

proof fn lemma_isum_zero(v: Seq<int>, n: int)
    requires
        0 <= n <= 9,
        forall|a: int| 0 <= a < 9 ==> #[trigger] v[a] == 0,
    ensures
        isum(v, n) == 0,
    decreases n,
{
    if n > 0 {
        lemma_isum_zero(v, n - 1);
    }
}

proof fn lemma_floor_sum(c: Seq<int>, v: Seq<i64>, m: int, n: int)
    requires
        0 <= n <= 9,
        m >= 1,
        forall|a: int| 0 <= a < 9 ==> 0 <= #[trigger] c[a],
        forall|a: int| 0 <= a < 9 ==> #[trigger] v[a] == c[a] / m,
    ensures
        sum_upto(v, n) <= isum(c, n) / m,
        0 <= isum(c, n),
    decreases n,
{
    if n > 0 {
        lemma_floor_sum(c, v, m, n - 1);
        let x = isum(c, n - 1);
        let y = c[n - 1];
        assert(x / m + y / m <= (x + y) / m) by (nonlinear_arith)
            requires x >= 0, y >= 0, m >= 1;
    }
}

/// A marginal distribution is non-negative and sums to at most `UNIT`.
pub proof fn lemma_marginal_total(k: PolicyKind, s: Seq<Tile>, hidden: Seq<int>)
    requires
        hidden.len() <= 9,
        s.len() == 9,
        forall|t: int| 0 <= t < hidden.len() ==> 0 <= #[trigger] hidden[t] < 9,
    ensures
        total(marginal(k, s, hidden)) <= UNIT,
        nonneg(marginal(k, s, hidden)),
{
    let m = pow3(hidden.len() as nat);
    lemma_pow3_mono(hidden.len() as nat, 9);
    reveal_with_fuel(pow3, 10);
    lemma_completion_sums(k, s, hidden, m);
    let c = completion_sums(k, s, hidden, m);
    let v = marginal(k, s, hidden);
    assert forall|a: int| 0 <= a < 9 implies #[trigger] v[a] == c[a] / m by {
        lemma_completion_sums(k, s, hidden, m);
        let ca = c[a];
        assert(0 <= ca / m <= ca) by (nonlinear_arith)
            requires ca >= 0, m >= 1;
        assert(ca <= isum(c, 9)) by {
            lemma_isum_prefix(c, 9, a);
        }
        assert(isum(c, 9) <= m * UNIT);
        assert(ca / m <= UNIT) by (nonlinear_arith)
            requires ca <= m * UNIT, m >= 1, ca >= 0;
    }
    lemma_floor_sum(c, v, m, 9);
    let t = isum(c, 9);
    assert(t / m <= UNIT) by (nonlinear_arith)
        requires t <= m * UNIT, m >= 1, t >= 0;
}

proof fn lemma_isum_prefix(c: Seq<int>, n: int, a: int)
    requires
        0 <= a < n <= 9,
        forall|b: int| 0 <= b < 9 ==> 0 <= #[trigger] c[b],
    ensures
        c[a] <= isum(c, n),
    decreases n,
{
    if n > a + 1 {
        lemma_isum_prefix(c, n - 1, a);
    } else {
        lemma_isum_nonneg(c, n - 1);
    }
}

proof fn lemma_isum_nonneg(c: Seq<int>, n: int)
    requires
        0 <= n <= 9,
        forall|b: int| 0 <= b < 9 ==> 0 <= #[trigger] c[b],
    ensures
        0 <= isum(c, n),
    decreases n,
{
    if n > 0 {
        lemma_isum_nonneg(c, n - 1);
    }
}

} // verus!
