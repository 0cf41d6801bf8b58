use vstd::prelude::*;

use crate::board::Tile;
use crate::observation::{lemma_nothing_hidden, marginal};
use crate::policy::{dist_of, PolicyKind};
use crate::shapley::{
    lemma_shapley_upto_equal, mask_hidden, mask_hidden_upto, values_for, ExplainerKind,
    fact, lemma_size_with_cell, lemma_small_facts, observed, shapley_upto, shapley_value, size, size_upto,
    weight, with_cell,
};

verus! {

/// Sum of `f(x)` for `lo <= x < hi`.
pub open spec fn range_sum(f: spec_fn(int) -> int, lo: int, hi: int) -> int
    decreases hi - lo,
{
    if hi <= lo {
        0
    } else {
        range_sum(f, lo, hi - 1) + f(hi - 1)
    }
}

proof fn lemma_split(f: spec_fn(int) -> int, lo: int, mid: int, hi: int)
    requires
        lo <= mid <= hi,
    ensures
        range_sum(f, lo, hi) == range_sum(f, lo, mid) + range_sum(f, mid, hi),
    decreases hi - mid,
{
    if hi > mid {
        lemma_split(f, lo, mid, hi - 1);
    }
}

proof fn lemma_shift(f: spec_fn(int) -> int, g: spec_fn(int) -> int, d: int, lo: int, hi: int)
    requires
        forall|x: int| lo <= x < hi ==> #[trigger] g(x) == f(x + d),
    ensures
        range_sum(g, lo, hi) == range_sum(f, lo + d, hi + d),
    decreases hi - lo,
{
    if hi > lo {
        lemma_shift(f, g, d, lo, hi - 1);
    }
}

proof fn lemma_ext(f: spec_fn(int) -> int, g: spec_fn(int) -> int, lo: int, hi: int)
    requires
        forall|x: int| lo <= x < hi ==> #[trigger] f(x) == g(x),
    ensures
        range_sum(f, lo, hi) == range_sum(g, lo, hi),
    decreases hi - lo,
{
    if hi > lo {
        lemma_ext(f, g, lo, hi - 1);
    }
}

proof fn lemma_linear(f: spec_fn(int) -> int, g: spec_fn(int) -> int, h: spec_fn(int) -> int, lo: int, hi: int)
    requires
        forall|x: int| lo <= x < hi ==> #[trigger] h(x) == f(x) - g(x),
    ensures
        range_sum(h, lo, hi) == range_sum(f, lo, hi) - range_sum(g, lo, hi),
    decreases hi - lo,
{
    if hi > lo {
        lemma_linear(f, g, h, lo, hi - 1);
    }
}

proof fn lemma_plus(f: spec_fn(int) -> int, g: spec_fn(int) -> int, h: spec_fn(int) -> int, lo: int, hi: int)
    requires
        forall|x: int| lo <= x < hi ==> #[trigger] h(x) == f(x) + g(x),
    ensures
        range_sum(h, lo, hi) == range_sum(f, lo, hi) + range_sum(g, lo, hi),
    decreases hi - lo,
{
    if hi > lo {
        lemma_plus(f, g, h, lo, hi - 1);
    }
}

proof fn lemma_zero(f: spec_fn(int) -> int, lo: int, hi: int)
    requires
        forall|x: int| lo <= x < hi ==> #[trigger] f(x) == 0,
    ensures
        range_sum(f, lo, hi) == 0,
    decreases hi - lo,
{
    if hi > lo {
        lemma_zero(f, lo, hi - 1);
    }
}

/// Exchanging the order of a double sum.
proof fn lemma_swap(x: spec_fn(int, int) -> int, nf: int, nm: int)
    requires
        0 <= nf,
        0 <= nm,
    ensures
        range_sum(|f: int| range_sum(|m: int| x(f, m), 0, nm), 0, nf) == range_sum(
            |m: int| range_sum(|f: int| x(f, m), 0, nf),
            0,
            nm,
        ),
    decreases nf,
{
    let rows = |f: int| range_sum(|m: int| x(f, m), 0, nm);
    let cols = |m: int| range_sum(|f: int| x(f, m), 0, nf);
    if nf == 0 {
        lemma_zero(cols, 0, nm);
    } else {
        lemma_swap(x, nf - 1, nm);
        let prev = |m: int| range_sum(|f: int| x(f, m), 0, nf - 1);
        let last = |m: int| x(nf - 1, m);
        assert forall|m: int| 0 <= m < nm implies #[trigger] cols(m) == prev(m) + last(m) by {
            assert(range_sum(|f: int| x(f, m), 0, nf) == range_sum(|f: int| x(f, m), 0, nf - 1) + x(nf - 1, m));
        }
        lemma_plus(prev, last, cols, 0, nm);
        assert(rows(nf - 1) == range_sum(last, 0, nm));
    }
}

/// `2^n` as a power of two of width 32.
pub open spec fn bit(n: int) -> int {
    (1u32 << (n as u32)) as int
}

proof fn lemma_bit_facts(f: int, n: int)
    requires
        0 <= f < 9,
        0 <= n < 9,
    ensures
        bit(n + 1) == 2 * bit(n),
        1 <= bit(n) <= 256,
{
    let nn = n as u32;
    assert((1u32 << ((nn + 1) as u32)) == 2 * (1u32 << nn) && 1 <= (1u32 << nn) <= 256) by (bit_vector)
        requires nn < 9u32;
}

proof fn lemma_low_clear(m: int, f: int)
    requires
        0 <= f < 9,
        0 <= m < bit(f),
    ensures
        !observed(m as u32, f),
        observed((bit(f) + m) as u32, f),
{
    let mm = m as u32;
    let ff = f as u32;
    assert((mm >> ff) & 1u32 != 1u32 && (((1u32 << ff) + mm) as u32 >> ff) & 1u32 == 1u32) by (bit_vector)
        requires ff < 9u32, mm < (1u32 << ff);
}

proof fn lemma_high_bit(m: int, f: int, n: int)
    requires
        0 <= f < n < 9,
        0 <= m < bit(n),
    ensures
        observed((bit(n) + m) as u32, f) == observed(m as u32, f),
{
    let mm = m as u32;
    let ff = f as u32;
    let nn = n as u32;
    assert(((((1u32 << nn) + mm) as u32 >> ff) & 1u32 == 1u32) == ((mm >> ff) & 1u32 == 1u32)) by (bit_vector)
        requires ff < nn, nn < 9u32, mm < (1u32 << nn);
}

/// Adding cell `f` to the coalitions without it reaches exactly the coalitions
/// with it: a sum over the first ones of `h(m + 2^f)` equals a sum over the
/// second ones of `h(m)`.
proof fn lemma_reindex(h: spec_fn(int) -> int, f: int, n: int)
    requires
        0 <= f < n <= 9,
    ensures
        range_sum(|m: int| if !observed(m as u32, f) { h(m + bit(f)) } else { 0 }, 0, bit(n)) == range_sum(
            |m: int| if observed(m as u32, f) { h(m) } else { 0 },
            0,
            bit(n),
        ),
    decreases n,
{
    let lhs = |m: int| if !observed(m as u32, f) { h(m + bit(f)) } else { 0 };
    let rhs = |m: int| if observed(m as u32, f) { h(m) } else { 0 };
    lemma_bit_facts(f, f);
    lemma_bit_facts(f, n - 1);
    if n == f + 1 {
        let b = bit(f);
        lemma_split(lhs, 0, b, 2 * b);
        lemma_split(rhs, 0, b, 2 * b);
        assert forall|m: int| b <= m < 2 * b implies #[trigger] lhs(m) == 0 by {
            lemma_low_clear(m - b, f);
        }
        lemma_zero(lhs, b, 2 * b);
        assert forall|m: int| 0 <= m < b implies #[trigger] rhs(m) == 0 by {
            lemma_low_clear(m, f);
        }
        lemma_zero(rhs, 0, b);
        assert forall|m: int| 0 <= m < b implies #[trigger] lhs(m) == h(m + b) by {
            lemma_low_clear(m, f);
        }
        let shifted = |m: int| h(m + b);
        lemma_ext(lhs, shifted, 0, b);
        lemma_shift(h, shifted, b, 0, b);
        assert forall|m: int| b <= m < 2 * b implies #[trigger] rhs(m) == h(m) by {
            lemma_low_clear(m - b, f);
        }
        lemma_ext(rhs, h, b, 2 * b);
    } else {
        let b = bit(n - 1);
        lemma_reindex(h, f, n - 1);
        let h2 = |x: int| h(x + b);
        lemma_reindex(h2, f, n - 1);
        lemma_split(lhs, 0, b, 2 * b);
        lemma_split(rhs, 0, b, 2 * b);
        let lhs2 = |m: int| if !observed(m as u32, f) { h2(m + bit(f)) } else { 0 };
        let rhs2 = |m: int| if observed(m as u32, f) { h2(m) } else { 0 };
        assert forall|m: int| 0 <= m < b implies #[trigger] lhs2(m) == lhs(m + b) by {
            lemma_high_bit(m, f, n - 1);
            assert(m + bit(f) + b == m + b + bit(f));
        }
        lemma_shift(lhs, lhs2, b, 0, b);
        assert forall|m: int| 0 <= m < b implies #[trigger] rhs2(m) == rhs(m + b) by {
            lemma_high_bit(m, f, n - 1);
        }
        lemma_shift(rhs, rhs2, b, 0, b);
    }
}


proof fn lemma_with_cell_is_sum(m: int, f: int)
    requires
        0 <= f < 9,
        0 <= m < 512,
        !observed(m as u32, f),
    ensures
        with_cell(m as u32, f) == (m + bit(f)) as u32,
        m + bit(f) < 512,
{
    let mm = m as u32;
    let ff = f as u32;
    assert((mm | (1u32 << ff)) == mm + (1u32 << ff) && mm + (1u32 << ff) < 512u32) by (bit_vector)
        requires ff < 9u32, mm < 512u32, (mm >> ff) & 1u32 != 1u32;
}

proof fn lemma_size_extremes(m: u32, n: int)
    requires
        0 <= n <= 9,
    ensures
        size_upto(m, n) == 0 ==> forall|i: int| 0 <= i < n ==> !#[trigger] observed(m, i),
        size_upto(m, n) == n ==> forall|i: int| 0 <= i < n ==> #[trigger] observed(m, i),
        0 <= size_upto(m, n) <= n,
    decreases n,
{
    if n > 0 {
        lemma_size_extremes(m, n - 1);
    }
}

proof fn lemma_empty_and_full(m: int)
    requires
        0 <= m < 512,
    ensures
        size(m as u32) == 0 <==> m == 0,
        size(m as u32) == 9 <==> m == 511,
        0 <= size(m as u32) <= 9,
{
    let mm = m as u32;
    lemma_size_extremes(mm, 9);
    if size(mm) == 0 {
        assert(!observed(mm, 0) && !observed(mm, 1) && !observed(mm, 2) && !observed(mm, 3) && !observed(mm, 4));
        assert(!observed(mm, 5) && !observed(mm, 6) && !observed(mm, 7) && !observed(mm, 8));
        assert(mm == 0u32) by (bit_vector)
            requires mm < 512u32, (mm >> 0u32) & 1u32 != 1u32, (mm >> 1u32) & 1u32 != 1u32, (mm >> 2u32) & 1u32 != 1u32,
                (mm >> 3u32) & 1u32 != 1u32, (mm >> 4u32) & 1u32 != 1u32, (mm >> 5u32) & 1u32 != 1u32,
                (mm >> 6u32) & 1u32 != 1u32, (mm >> 7u32) & 1u32 != 1u32, (mm >> 8u32) & 1u32 != 1u32;
    }
    if size(mm) == 9 {
        assert(observed(mm, 0) && observed(mm, 1) && observed(mm, 2) && observed(mm, 3) && observed(mm, 4));
        assert(observed(mm, 5) && observed(mm, 6) && observed(mm, 7) && observed(mm, 8));
        assert(mm == 511u32) by (bit_vector)
            requires mm < 512u32, (mm >> 0u32) & 1u32 == 1u32, (mm >> 1u32) & 1u32 == 1u32, (mm >> 2u32) & 1u32 == 1u32,
                (mm >> 3u32) & 1u32 == 1u32, (mm >> 4u32) & 1u32 == 1u32, (mm >> 5u32) & 1u32 == 1u32,
                (mm >> 6u32) & 1u32 == 1u32, (mm >> 7u32) & 1u32 == 1u32, (mm >> 8u32) & 1u32 == 1u32;
    }
    if m == 0 {
        assert(forall|i: u32| i < 9 ==> (0u32 >> i) & 1u32 != 1u32) by (bit_vector);
        assert forall|i: int| 0 <= i < 9 implies !observed(mm, i) by {
            let ii = i as u32;
            assert((0u32 >> ii) & 1u32 != 1u32) by (bit_vector);
        }
        lemma_size_count(mm, 9);
    }
    if m == 511 {
        assert forall|i: int| 0 <= i < 9 implies observed(mm, i) by {
            let ii = i as u32;
            assert(ii < 9u32 ==> (511u32 >> ii) & 1u32 == 1u32) by (bit_vector);
        }
        lemma_size_count(mm, 9);
    }
}

proof fn lemma_size_count(m: u32, n: int)
    requires
        0 <= n <= 9,
    ensures
        (forall|i: int| 0 <= i < n ==> !#[trigger] observed(m, i)) ==> size_upto(m, n) == 0,
        (forall|i: int| 0 <= i < n ==> #[trigger] observed(m, i)) ==> size_upto(m, n) == n,
    decreases n,
{
    if n > 0 {
        lemma_size_count(m, n - 1);
    }
}

proof fn lemma_weight_values()
    ensures
        weight(0) == 40320,
        weight(1) == 5040,
        weight(2) == 1440,
        weight(3) == 720,
        weight(4) == 576,
        weight(5) == 720,
        weight(6) == 1440,
        weight(7) == 5040,
        weight(8) == 40320,
{
    lemma_small_facts();
    assert(fact(0) * fact(8) == 40320);
    assert(fact(1) * fact(7) == 5040);
    assert(fact(2) * fact(6) == 1440);
    assert(fact(3) * fact(5) == 720);
    assert(fact(4) * fact(4) == 576);
    assert(fact(5) * fact(3) == 720);
    assert(fact(6) * fact(2) == 1440);
    assert(fact(7) * fact(1) == 5040);
    assert(fact(8) * fact(0) == 40320);
}

/// `k (k - 1)! (9 - k)!` and `(9 - k) k! (8 - k)!` are both `k! (9 - k)!`, so
/// a coalition's value cancels unless it observes nothing or everything.
proof fn lemma_weights_cancel(k: int)
    requires
        1 <= k <= 8,
    ensures
        k * weight(k - 1) == (9 - k) * weight(k),
{
    lemma_weight_values();
}

proof fn lemma_column(hm: int, wg: int, m: int, n: int)
    requires
        0 <= n <= 9,
    ensures
        range_sum(
            |f: int| (if observed(m as u32, f) { hm } else { 0 }) - (if !observed(m as u32, f) { wg } else { 0 }),
            0,
            n,
        ) == size_upto(m as u32, n) * hm - (n - size_upto(m as u32, n)) * wg,
    decreases n,
{
    if n > 0 {
        lemma_column(hm, wg, m, n - 1);
        let col = |f: int| (if observed(m as u32, f) { hm } else { 0 }) - (if !observed(m as u32, f) { wg } else { 0 });
        let s = size_upto(m as u32, n - 1);
        assert(range_sum(col, 0, n) == range_sum(col, 0, n - 1) + col(n - 1));
        assert(range_sum(col, 0, n - 1) == s * hm - (n - 1 - s) * wg);
        if observed(m as u32, n - 1) {
            assert(size_upto(m as u32, n) == s + 1);
            assert(col(n - 1) == hm);
            assert((s + 1) * hm == s * hm + hm) by (nonlinear_arith);
            assert((n - (s + 1)) * wg == (n - 1 - s) * wg) by (nonlinear_arith);
            assert(range_sum(col, 0, n) == (s + 1) * hm - (n - (s + 1)) * wg);
        } else {
            assert(size_upto(m as u32, n) == s);
            assert(col(n - 1) == -wg);
            assert((n - s) * wg == (n - 1 - s) * wg + wg) by (nonlinear_arith);
            assert(range_sum(col, 0, n) == s * hm - (n - s) * wg);
        }
        let t = size_upto(m as u32, n);
        assert(range_sum(col, 0, n) == t * hm - (n - t) * wg);
    } else {
        assert(size_upto(m as u32, 0) == 0);
        assert(0 * hm - (0 - 0) * wg == 0) by (nonlinear_arith);
    }
}

/// Efficiency of the Shapley values: for any coalition values `v`, the scaled
/// Shapley values of the nine cells at action `a` add up to `9!` times the value
/// of the coalition that observes every cell minus that of the coalition that
/// observes none.
pub proof fn lemma_efficiency(v: spec_fn(u32) -> Seq<i64>, a: int)
    ensures
        range_sum(|f: int| shapley_value(v, f, a), 0, 9) == 362880 * (v(511u32)[a] - v(0u32)[a]),
{
    let g = |m: int| v(m as u32)[a] as int;
    let hh = |x: int| weight(size(x as u32) - 1) * g(x);
    let x = |f: int, m: int|
        (if observed(m as u32, f) { hh(m) } else { 0 }) - (if !observed(m as u32, f) {
            weight(size(m as u32)) * g(m)
        } else {
            0
        });
    assert(bit(9) == 512) by {
        assert((1u32 << 9u32) == 512u32) by (bit_vector);
    }
    assert forall|f: int| 0 <= f < 9 implies #[trigger] shapley_value(v, f, a) == range_sum(|m: int| x(f, m), 0, 512) by {
        let marginals = |m: int|
            if observed(m as u32, f) {
                0
            } else {
                weight(size(m as u32)) * (v(with_cell(m as u32, f))[a] - v(m as u32)[a])
            };
        lemma_upto_as_range(v, f, a, 512);
        let p = |m: int| if !observed(m as u32, f) { hh(m + bit(f)) } else { 0 };
        let q = |m: int| if !observed(m as u32, f) { weight(size(m as u32)) * g(m) } else { 0 };
        let r = |m: int| if observed(m as u32, f) { hh(m) } else { 0 };
        assert forall|m: int| 0 <= m < 512 implies #[trigger] marginals(m) == p(m) - q(m) by {
            if !observed(m as u32, f) {
                lemma_with_cell_is_sum(m, f);
                lemma_size_with_cell(m as u32, f, 9);
                let w = weight(size(m as u32));
                let hi = v(with_cell(m as u32, f))[a] as int;
                let lo = v(m as u32)[a] as int;
                assert(w * (hi - lo) == w * hi - w * lo) by (nonlinear_arith);
                assert(hi == g(m + bit(f)));
            }
        }
        lemma_linear(p, q, marginals, 0, 512);
        lemma_reindex(hh, f, 9);
        assert forall|m: int| 0 <= m < 512 implies #[trigger] x(f, m) == r(m) - q(m) by {}
        lemma_linear(r, q, |m: int| x(f, m), 0, 512);
    }
    lemma_ext(|f: int| shapley_value(v, f, a), |f: int| range_sum(|m: int| x(f, m), 0, 512), 0, 9);
    lemma_swap(x, 9, 512);
    let total = |m: int| if m == 511 { 362880 * g(511) } else if m == 0 { -362880 * g(0) } else { 0 };
    let cols = |m: int| range_sum(|f: int| x(f, m), 0, 9);
    assert forall|m: int| 0 <= m < 512 implies #[trigger] cols(m) == total(m) by {
        lemma_empty_and_full(m);
        let k = size(m as u32);
        let wg = weight(k) * g(m);
        lemma_column(hh(m), wg, m, 9);
        assert forall|f: int| 0 <= f < 9 implies #[trigger] x(f, m) == (if observed(m as u32, f) { hh(m) } else { 0 }) - (if !observed(m as u32, f) { wg } else { 0 }) by {}
        lemma_ext(
            |f: int| x(f, m),
            |f: int| (if observed(m as u32, f) { hh(m) } else { 0 }) - (if !observed(m as u32, f) { wg } else { 0 }),
            0,
            9,
        );
        lemma_weight_values();
        let gm = g(m);
        assert(cols(m) == k * hh(m) - (9 - k) * wg);
        assert(hh(m) == weight(k - 1) * gm);
        if k == 0 {
            assert(m == 0);
            assert(wg == 40320 * gm);
            assert(cols(m) == -9 * (40320 * gm));
            assert(total(m) == -362880 * gm);
        } else if k == 9 {
            assert(m == 511);
            assert(hh(m) == 40320 * gm);
            let h9 = hh(m);
            assert(k * h9 - (9 - k) * wg == 9 * h9) by (nonlinear_arith)
                requires k == 9;
            assert(cols(m) == 9 * (40320 * gm));
            assert(total(m) == 362880 * gm);
        } else {
            lemma_weights_cancel(k);
            let w1 = weight(k - 1);
            let w2 = weight(k);
            let h1 = hh(m);
            assert(k * h1 - (9 - k) * wg == 0) by (nonlinear_arith)
                requires h1 == w1 * gm, wg == w2 * gm, k * w1 == (9 - k) * w2;
            assert(m != 0 && m != 511);
            assert(cols(m) == 0);
        }
    }
    lemma_ext(cols, total, 0, 512);
    lemma_split(total, 0, 1, 512);
    lemma_split(total, 1, 511, 512);
    lemma_zero(total, 1, 511);
    reveal_with_fuel(range_sum, 2);
    assert(range_sum(total, 0, 1) == total(0));
    assert(range_sum(total, 511, 512) == total(511));
}

proof fn lemma_upto_as_range(v: spec_fn(u32) -> Seq<i64>, f: int, a: int, n: int)
    requires
        0 <= n <= 512,
    ensures
        shapley_upto(v, f, a, n) == range_sum(
            |m: int|
                if observed(m as u32, f) {
                    0
                } else {
                    weight(size(m as u32)) * (v(with_cell(m as u32, f))[a] - v(m as u32)[a])
                },
            0,
            n,
        ),
    decreases n,
{
    if n > 0 {
        lemma_upto_as_range(v, f, a, n - 1);
    }
}


proof fn lemma_all_observed(n: int)
    requires
        0 <= n <= 9,
    ensures
        mask_hidden_upto(511u32, n).len() == 0,
    decreases n,
{
    if n > 0 {
        lemma_all_observed(n - 1);
        let i = (n - 1) as u32;
        assert(i < 9u32 ==> (511u32 >> i) & 1u32 == 1u32) by (bit_vector);
        assert(observed(511u32, n - 1));
    }
}

/// Efficiency of the explanation of a policy's action distribution: at every
/// action `a`, the scaled Shapley values of the nine cells plus `9!` times the
/// base value (the distribution with every cell hidden) give `9!` times the
/// policy's own distribution on the fully observed board.
pub proof fn lemma_shapley_efficiency(k: PolicyKind, s: Seq<Tile>, a: int)
    ensures
        range_sum(|f: int| shapley_value(values_for(ExplainerKind::Distribution, k, s, f), f, a), 0, 9)
            + 362880 * marginal(k, s, mask_hidden(0u32))[a] == 362880 * dist_of(k, s)[a],
{
    let v0 = values_for(ExplainerKind::Distribution, k, s, 0);
    assert forall|f: int| 0 <= f < 9 implies #[trigger] shapley_value(values_for(ExplainerKind::Distribution, k, s, f), f, a)
        == shapley_value(v0, f, a) by {
        lemma_shapley_upto_equal(values_for(ExplainerKind::Distribution, k, s, f), v0, f, a, 512);
    }
    lemma_ext(
        |f: int| shapley_value(values_for(ExplainerKind::Distribution, k, s, f), f, a),
        |f: int| shapley_value(v0, f, a),
        0,
        9,
    );
    lemma_efficiency(v0, a);
    lemma_all_observed(9);
    lemma_nothing_hidden(k, s, mask_hidden(511u32));
}

} // verus!
