use vstd::prelude::*;

use crate::board::{Grid, CELLS};

verus! {

/// The number of units that make up probability one.
///
/// Probabilities are held exactly as integer multiples of `1 / UNIT`. The value
/// 2520 * 3^9 is divisible by every tie count from 1 to 9 (2520 is their least
/// common multiple), and the factor 3^9 lets an average over the `3^h`
/// completions of a partial board stay exact.
pub const UNIT: i64 = 49601160;

/// The largest magnitude a cell may hold so that sums over nine cells, and a
/// product with `UNIT`, stay in range.
pub const CELL_BOUND: i64 = 100000000000000000;

/// The largest cell that `normalize` accepts, so that a cell times `UNIT` stays
/// in range.
pub const WEIGHT_BOUND: i64 = 100000000000;

/// Sum of the first `n` entries.
pub open spec fn sum_upto(s: Seq<i64>, n: int) -> int
    decreases n,
{
    if n <= 0 {
        0
    } else {
        sum_upto(s, n - 1) + s[n - 1]
    }
}

/// Sum of the nine cells.
pub open spec fn total(s: Seq<i64>) -> int {
    sum_upto(s, 9)
}

pub open spec fn bounded(s: Seq<i64>, b: int) -> bool {
    forall|i: int| 0 <= i < 9 ==> -b <= #[trigger] s[i] <= b
}

pub open spec fn nonneg(s: Seq<i64>) -> bool {
    forall|i: int| 0 <= i < 9 ==> 0 <= #[trigger] s[i]
}

/// The magnitude of `x`.
pub open spec fn magnitude(x: int) -> int {
    if x >= 0 {
        x
    } else {
        -x
    }
}

/// `a / b` rounded toward zero, for a non-zero `b`.
pub open spec fn trunc_div(a: int, b: int) -> int {
    if (a >= 0) == (b > 0) {
        magnitude(a) / magnitude(b)
    } else {
        -(magnitude(a) / magnitude(b))
    }
}

/// The result of `normalize`: each cell divided by the sum of the cells (in
/// units of `1 / UNIT`, rounded toward zero); a grid whose sum is zero stays as
/// it is.
pub open spec fn normalized(s: Seq<i64>) -> Seq<i64> {
    if total(s) == 0 {
        s
    } else {
        Seq::new(9, |i: int| trunc_div(s[i] * UNIT, total(s)) as i64)
    }
}

/// For non-negative cells and a positive sum, normalizing is plain division.
pub proof fn lemma_normalized_nonneg(s: Seq<i64>)
    requires
        nonneg(s),
        total(s) > 0,
    ensures
        forall|i: int| 0 <= i < 9 ==> #[trigger] normalized(s)[i] == (s[i] * UNIT / total(s)) as i64,
{
    assert forall|i: int| 0 <= i < 9 implies #[trigger] normalized(s)[i] == (s[i] * UNIT / total(s)) as i64 by {
        let c = s[i] as int;
        assert(c * UNIT >= 0) by (nonlinear_arith)
            requires c >= 0;
    }
}

pub proof fn lemma_sum_bounds(s: Seq<i64>, n: int, b: int)
    requires
        0 <= n <= 9,
        s.len() == 9,
        0 <= b,
        bounded(s, b),
    ensures
        -n * b <= sum_upto(s, n) <= n * b,
    decreases n,
{
    if n > 0 {
        lemma_sum_bounds(s, n - 1, b);
        assert(-b <= s[n - 1] <= b);
        assert(-n * b == -(n - 1) * b - b) by (nonlinear_arith);
        assert(n * b == (n - 1) * b + b) by (nonlinear_arith);
    }
}

pub proof fn lemma_sum_nonneg(s: Seq<i64>, n: int)
    requires
        0 <= n <= 9,
        s.len() == 9,
        nonneg(s),
    ensures
        0 <= sum_upto(s, n),
        forall|i: int| 0 <= i < n ==> s[i] <= sum_upto(s, n),
    decreases n,
{
    if n > 0 {
        lemma_sum_nonneg(s, n - 1);
    }
}

impl Grid<i64> {
    /// The grid of zeros.
    pub fn zero() -> (r: Grid<i64>)
        ensures
            forall|i: int| 0 <= i < 9 ==> #[trigger] r@[i] == 0,
    {
        Grid { cells: [0i64; 9] }
    }

    /// Sum of all cells.
    pub fn sum(&self) -> (r: i64)
        requires
            bounded(self@, CELL_BOUND as int),
        ensures
            r == total(self@),
    {
        let mut acc: i64 = 0;
        let mut i: usize = 0;
        while i < CELLS
            invariant
                i <= 9,
                bounded(self@, CELL_BOUND as int),
                acc == sum_upto(self@, i as int),
            decreases 9 - i,
        {
            proof {
                lemma_sum_bounds(self@, i as int + 1, CELL_BOUND as int);
            }
            acc = acc + self.cells[i];
            i = i + 1;
        }
        acc
    }

    /// Divides every cell by the sum of the cells, in units of `1 / UNIT`
    /// rounded toward zero; a grid whose sum is zero is returned as it is.
    pub fn normalize(&self) -> (r: Grid<i64>)
        requires
            bounded(self@, WEIGHT_BOUND as int),
        ensures
            r@ == normalized(self@),
    {
        proof {
            lemma_sum_bounds(self@, 9, WEIGHT_BOUND as int);
        }
        let sum = self.sum();
        if sum == 0 {
            return *self;
        }
        let den: i64 = if sum > 0 { sum } else { -sum };
        let mut cells: [i64; 9] = [0i64; 9];
        let mut i: usize = 0;
        while i < CELLS
            invariant
                i <= 9,
                sum == total(self@),
                sum != 0,
                den == magnitude(sum as int),
                -9 * WEIGHT_BOUND <= sum <= 9 * WEIGHT_BOUND,
                bounded(self@, WEIGHT_BOUND as int),
                forall|j: int| 0 <= j < i ==> cells@[j] == trunc_div(self@[j] * UNIT, total(self@)) as i64,
            decreases 9 - i,
        {
            let c = self.cells[i];
            proof {
                assert(-WEIGHT_BOUND * UNIT <= c * UNIT <= WEIGHT_BOUND * UNIT) by (nonlinear_arith)
                    requires -WEIGHT_BOUND <= c <= WEIGHT_BOUND;
            }
            let p: i64 = c * UNIT;
            let num: i64 = if p >= 0 { p } else { -p };
            proof {
                let ghost a: int = num as int;
                let ghost b: int = den as int;
                assert(0 <= a / b <= a) by (nonlinear_arith)
                    requires 0 <= a, b > 0;
            }
            let q: i64 = num / den;
            cells[i] = if (p >= 0) == (sum > 0) { q } else { -q };
            i = i + 1;
        }
        let r = Grid { cells };
        assert(r@ =~= normalized(self@));
        r
    }

    /// The cell-by-cell sum.
    pub fn add(&self, rhs: &Grid<i64>) -> (r: Grid<i64>)
        requires
            bounded(self@, CELL_BOUND as int),
            bounded(rhs@, CELL_BOUND as int),
        ensures
            forall|i: int| 0 <= i < 9 ==> #[trigger] r@[i] == self@[i] + rhs@[i],
    {
        let mut cells: [i64; 9] = [0i64; 9];
        let mut i: usize = 0;
        while i < CELLS
            invariant
                i <= 9,
                bounded(self@, CELL_BOUND as int),
                bounded(rhs@, CELL_BOUND as int),
                forall|j: int| 0 <= j < i ==> cells@[j] == self@[j] + rhs@[j],
            decreases 9 - i,
        {
            cells[i] = self.cells[i] + rhs.cells[i];
            i = i + 1;
        }
        Grid { cells }
    }

    /// The cell-by-cell difference.
    pub fn sub(&self, rhs: &Grid<i64>) -> (r: Grid<i64>)
        requires
            bounded(self@, CELL_BOUND as int),
            bounded(rhs@, CELL_BOUND as int),
        ensures
            forall|i: int| 0 <= i < 9 ==> #[trigger] r@[i] == self@[i] - rhs@[i],
    {
        let mut cells: [i64; 9] = [0i64; 9];
        let mut i: usize = 0;
        while i < CELLS
            invariant
                i <= 9,
                bounded(self@, CELL_BOUND as int),
                bounded(rhs@, CELL_BOUND as int),
                forall|j: int| 0 <= j < i ==> cells@[j] == self@[j] - rhs@[j],
            decreases 9 - i,
        {
            cells[i] = self.cells[i] - rhs.cells[i];
            i = i + 1;
        }
        Grid { cells }
    }

    /// Multiplies every cell by `k`.
    pub fn mul_assign(&mut self, k: i64)
        requires
            forall|i: int| 0 <= i < 9 ==> i64::MIN <= #[trigger] old(self)@[i] * k <= i64::MAX,
        ensures
            forall|i: int| 0 <= i < 9 ==> #[trigger] final(self)@[i] == old(self)@[i] * k,
    {
        let mut i: usize = 0;
        while i < CELLS
            invariant
                i <= 9,
                forall|j: int| 0 <= j < 9 ==> i64::MIN <= #[trigger] old(self)@[j] * k <= i64::MAX,
                forall|j: int| 0 <= j < i ==> #[trigger] self.cells@[j] == old(self).cells@[j] * k,
                forall|j: int| i <= j < 9 ==> #[trigger] self.cells@[j] == old(self).cells@[j],
            decreases 9 - i,
        {
            let c = self.cells[i];
            assert(c == old(self).cells@[i as int]);
            assert(i64::MIN <= old(self)@[i as int] * k <= i64::MAX);
            self.cells[i] = c * k;
            i = i + 1;
        }
    }
}


/// Normalizing 0/1 weights gives cells between 0 and `UNIT`.
pub proof fn lemma_normalized_range(s: Seq<i64>)
    requires
        s.len() == 9,
        forall|i: int| 0 <= i < 9 ==> 0 <= #[trigger] s[i] <= 1,
    ensures
        forall|i: int| 0 <= i < 9 ==> 0 <= #[trigger] normalized(s)[i] <= UNIT,
{
    lemma_sum_nonneg(s, 9);
    if total(s) != 0 {
        lemma_normalized_nonneg(s);
        assert forall|i: int| 0 <= i < 9 implies 0 <= #[trigger] normalized(s)[i] <= UNIT by {
            let c = s[i] as int;
            let t = total(s);
            assert(0 <= c * UNIT / t <= UNIT) by (nonlinear_arith)
                requires 0 <= c <= 1, t >= 1;
        }
    }
}


/// A grid that holds `c` where the 0/1 grid `w` holds 1, and 0 elsewhere, sums to
/// `c` times the sum of `w`.
pub proof fn lemma_sum_indicator(v: Seq<i64>, w: Seq<i64>, c: int, n: int)
    requires
        0 <= n <= 9,
        forall|i: int| 0 <= i < 9 ==> (#[trigger] w[i] == 0 && v[i] == 0) || (w[i] == 1 && v[i] == c),
    ensures
        sum_upto(v, n) == c * sum_upto(w, n),
    decreases n,
{
    if n > 0 {
        lemma_sum_indicator(v, w, c, n - 1);
        assert(w[n - 1] == 0 || w[n - 1] == 1);
        assert(c * sum_upto(w, n) == c * sum_upto(w, n - 1) + c * w[n - 1]) by (nonlinear_arith)
            requires sum_upto(w, n) == sum_upto(w, n - 1) + w[n - 1];
    }
}

/// `UNIT` is divisible by every count of cells from 1 to 9.
pub proof fn lemma_unit_divisible(m: int)
    requires
        1 <= m <= 9,
    ensures
        UNIT as int % m == 0,
        (UNIT as int / m) * m == UNIT,
{
    if m == 1 {
    } else if m == 2 {
    } else if m == 3 {
    } else if m == 4 {
    } else if m == 5 {
    } else if m == 6 {
    } else if m == 7 {
    } else if m == 8 {
    } else {
    }
}

/// Normalizing a 0/1 grid with at least one 1 gives a grid summing to `UNIT`.
pub proof fn lemma_normalized_indicator(w: Seq<i64>)
    requires
        w.len() == 9,
        forall|i: int| 0 <= i < 9 ==> 0 <= #[trigger] w[i] <= 1,
        exists|i: int| 0 <= i < 9 && w[i] == 1,
    ensures
        total(normalized(w)) == UNIT,
        forall|i: int| 0 <= i < 9 && w[i] == 0 ==> #[trigger] normalized(w)[i] == 0,
{
    lemma_sum_nonneg(w, 9);
    let m = total(w);
    lemma_sum_bounds(w, 9, 1);
    let i0 = choose|i: int| 0 <= i < 9 && w[i] == 1;
    assert(m >= 1);
    lemma_unit_divisible(m);
    lemma_normalized_nonneg(w);
    let v = normalized(w);
    assert forall|i: int| 0 <= i < 9 implies (#[trigger] w[i] == 0 && v[i] == 0) || (w[i] == 1 && v[i] == UNIT as int / m) by {
        if w[i] == 1 {
            assert(v[i] == (1 * UNIT / m) as i64);
        } else {
            assert(w[i] == 0);
            assert(v[i] == (0 * UNIT / m) as i64);
        }
    }
    lemma_sum_indicator(v, w, UNIT as int / m, 9);
    assert((UNIT as int / m) * m == UNIT);
}

} // verus!
