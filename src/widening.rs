//! The logarithmic widening of a long clause `l₀ ∨ … ∨ l_{k−1}`: `h` counting
//! ancillas `a_j` hold a binary number `A = Σ 2^j·a_j`, and the penalty is the
//! square `(S − 1 − A)²` of a linear form, where `S` counts the true literals.
//! Its least value over the ancillas is 0 when some literal holds and 1 when
//! none does.
use vstd::prelude::*;
use vstd::arithmetic::div_mod::{lemma_mod_breakdown, lemma_small_mod};
use crate::ising::{lemma_triplets_energy_concat, triplet_energy, triplets_energy};
use crate::nusslein::pow2;
use crate::qubo::{is_binary, QuboType};
use crate::reducers::{spin, Triplet};
use crate::sat::SatVariable;

verus! {

/// Bound on the absolute value of a weight and of the constant of a linear form.
pub const WEIGHT_LIMIT: i64 = 1048576;

/// `Σ_{r < m} w_r·x[u_r]` over the weighted bits `(u_r, w_r)`.
pub open spec fn weighted_sum(ws: Seq<(usize, int)>, x: Seq<int>, m: int) -> int
    decreases m,
{
    if m <= 0 {
        0
    } else {
        weighted_sum(ws, x, m - 1) + ws[m - 1].1 * x[ws[m - 1].0 as int]
    }
}

/// The terms `(u_s, u_r, 2·w_s·w_r)` for `s < r`.
pub open spec fn cross_terms(ws: Seq<(usize, int)>, r: int) -> Seq<Triplet> {
    Seq::new(r as nat, |s: int| (ws[s].0, ws[r].0, (2 * ws[s].1 * ws[r].1) as i64))
}

/// The terms whose energy is `2·((c + Σ w·x)² − c²)` under symmetric storage:
/// `2·(2c·w_r + w_r²)` on each diagonal and `2·w_s·w_r` on each pair.
pub open spec fn square_terms(ws: Seq<(usize, int)>, c: int, m: int) -> Seq<Triplet>
    decreases m,
{
    if m <= 0 {
        Seq::empty()
    } else {
        let (u, w) = (ws[m - 1].0, ws[m - 1].1);
        square_terms(ws, c, m - 1) + seq![(u, u, (2 * (2 * c * w + w * w)) as i64)] + cross_terms(
            ws,
            m - 1,
        )
    }
}

/// The first `m` weighted bits name distinct indices of `x`, and every weight
/// and the constant `c` lie within `WEIGHT_LIMIT`.
pub open spec fn sound_weights(ws: Seq<(usize, int)>, c: int, x: Seq<int>, m: int) -> bool {
    &&& 0 <= m <= ws.len()
    &&& -WEIGHT_LIMIT <= c <= WEIGHT_LIMIT
    &&& forall|r: int| 0 <= r < m ==> (#[trigger] ws[r]).0 < x.len() && -WEIGHT_LIMIT <= ws[r].1 <= WEIGHT_LIMIT
    &&& forall|a: int, b: int| 0 <= a < b < m ==> (#[trigger] ws[a]).0 != (#[trigger] ws[b]).0
}

proof fn lemma_cross_energy(ws: Seq<(usize, int)>, c: int, x: Seq<int>, r: int, k: int)
    requires
        sound_weights(ws, c, x, r + 1),
        is_binary(x),
        0 <= k <= r,
    ensures
        triplets_energy(cross_terms(ws, r), x, k) == 4 * ws[r].1 * x[ws[r].0 as int] * weighted_sum(
            ws,
            x,
            k,
        ),
    decreases k,
{
    if k > 0 {
        lemma_cross_energy(ws, c, x, r, k - 1);
        let s = k - 1;
        assert(ws[s].0 != ws[r].0);
        let (ws_, wr, xs, xr) = (ws[s].1, ws[r].1, x[ws[s].0 as int], x[ws[r].0 as int]);
        assert(-WEIGHT_LIMIT <= ws_ <= WEIGHT_LIMIT && -WEIGHT_LIMIT <= wr <= WEIGHT_LIMIT);
        assert(-2 * 1048576 * 1048576 <= 2 * ws_ * wr <= 2 * 1048576 * 1048576) by (nonlinear_arith)
            requires
                -1048576 <= ws_ <= 1048576,
                -1048576 <= wr <= 1048576,
        ;
        assert(cross_terms(ws, r)[s] == (ws[s].0, ws[r].0, (2 * ws_ * wr) as i64));
        let prev = weighted_sum(ws, x, s);
        assert(4 * wr * xr * prev + 2 * (2 * ws_ * wr) * xs * xr == 4 * wr * xr * (prev + ws_ * xs))
            by (nonlinear_arith);
    }
}

/// The square terms of a linear form have energy `2·((c + Σ w·x)² − c²)`.
pub proof fn lemma_square_energy(ws: Seq<(usize, int)>, c: int, x: Seq<int>, m: int)
    requires
        sound_weights(ws, c, x, m),
        is_binary(x),
    ensures
        triplets_energy(square_terms(ws, c, m), x, square_terms(ws, c, m).len() as int) == 2 * ((c
            + weighted_sum(ws, x, m)) * (c + weighted_sum(ws, x, m)) - c * c),
    decreases m,
{
    if m > 0 {
        lemma_square_energy(ws, c, x, m - 1);
        let prev = square_terms(ws, c, m - 1);
        let (u, w) = (ws[m - 1].0, ws[m - 1].1);
        let diag = (u, u, (2 * (2 * c * w + w * w)) as i64);
        let cross = cross_terms(ws, m - 1);
        assert(-WEIGHT_LIMIT <= w <= WEIGHT_LIMIT);
        assert(-8 * 1048576 * 1048576 <= 2 * (2 * c * w + w * w) <= 8 * 1048576 * 1048576)
            by (nonlinear_arith)
            requires
                -1048576 <= c <= 1048576,
                -1048576 <= w <= 1048576,
        ;
        assert(square_terms(ws, c, m) == (prev + seq![diag]) + cross);
        assert(seq![diag][0] == diag);
        assert(triplets_energy(seq![diag], x, 0) == 0);
        assert(triplets_energy(seq![diag], x, 1) == triplet_energy(diag, x));
        lemma_triplets_energy_concat(prev, seq![diag], x, 1);
        lemma_triplets_energy_concat(prev + seq![diag], cross, x, cross.len() as int);
        lemma_cross_energy(ws, c, x, m - 1, m - 1);
        let xu = x[u as int];
        assert(xu == 0 || xu == 1);
        let p = weighted_sum(ws, x, m - 1);
        assert(triplet_energy(diag, x) == 2 * (2 * c * w + w * w) * xu);
        assert(2 * ((c + p) * (c + p) - c * c) + 2 * (2 * c * w + w * w) * xu + 4 * w * xu * p == 2 * (
        (c + p + w * xu) * (c + p + w * xu) - c * c)) by (nonlinear_arith)
            requires
                xu == 0 || xu == 1,
        ;
    }
}

/// `1` when the literal holds under `x`, else `0`.
pub open spec fn literal_value(l: SatVariable, x: Seq<int>) -> int {
    if l.0 {
        x[l.1 as int]
    } else {
        1 - x[l.1 as int]
    }
}

/// The number of true literals among the first `m`.
pub open spec fn true_count(c: Seq<SatVariable>, x: Seq<int>, m: int) -> int
    decreases m,
{
    if m <= 0 {
        0
    } else {
        true_count(c, x, m - 1) + literal_value(c[m - 1], x)
    }
}

/// The number of negative literals among the first `m`.
pub open spec fn neg_count(c: Seq<SatVariable>, m: int) -> int
    decreases m,
{
    if m <= 0 {
        0
    } else {
        neg_count(c, m - 1) + (if c[m - 1].0 {
            0int
        } else {
            1
        })
    }
}

/// `A = Σ_{t < j} 2^t·x[ps + t]`: the number that the counting ancillas hold.
pub open spec fn ancilla_value(x: Seq<int>, ps: int, j: int) -> int
    decreases j,
{
    if j <= 0 {
        0
    } else {
        ancilla_value(x, ps, j - 1) + pow2((j - 1) as nat) * x[ps + j - 1]
    }
}

/// The weighted bits of a long clause with `h` counting ancillas from `ps`:
/// `±1` per literal, `−2^j` per ancilla.
pub open spec fn widening_weights(c: Seq<SatVariable>, ps: int, h: int) -> Seq<(usize, int)> {
    Seq::new(c.len(), |l: int| (c[l].1, spin(c[l].0))) + Seq::new(
        h as nat,
        |j: int| ((ps + j) as usize, -(pow2(j as nat) as int)),
    )
}

/// The constant of the widening form: the number of negative literals minus one.
pub open spec fn widening_constant(c: Seq<SatVariable>) -> int {
    neg_count(c, c.len() as int) - 1
}

/// The widening form `S − 1 − A` of a long clause under the bits `y`, as the
/// constant plus the weighted sum.
pub open spec fn widening_form(c: Seq<SatVariable>, ps: int, h: int, y: Seq<int>) -> int {
    widening_constant(c) + weighted_sum(widening_weights(c, ps, h), y, c.len() + h)
}

/// The widening terms of a long clause with `h` counting ancillas from `ps`:
/// twice `(S − 1 − A)²`, less the constant `2·(neg_count − 1)²`.
pub open spec fn widening_terms(c: Seq<SatVariable>, ps: int, h: int) -> Seq<Triplet> {
    square_terms(widening_weights(c, ps, h), widening_constant(c), c.len() + h)
}

proof fn lemma_literal_part(c: Seq<SatVariable>, ps: int, h: int, x: Seq<int>, m: int)
    requires
        0 <= m <= c.len(),
        h >= 0,
        is_binary(x),
        forall|l: int| 0 <= l < c.len() ==> (#[trigger] c[l]).1 < x.len(),
    ensures
        weighted_sum(widening_weights(c, ps, h), x, m) + neg_count(c, m) == true_count(c, x, m),
    decreases m,
{
    if m > 0 {
        lemma_literal_part(c, ps, h, x, m - 1);
        let ws = widening_weights(c, ps, h);
        assert(ws[m - 1] == (c[m - 1].1, spin(c[m - 1].0)));
        assert(x[c[m - 1].1 as int] == 0 || x[c[m - 1].1 as int] == 1);
        if c[m - 1].0 {
        } else {
        }
    }
}

proof fn lemma_ancilla_part(c: Seq<SatVariable>, ps: int, h: int, x: Seq<int>, j: int)
    requires
        0 <= j <= h,
        ps >= 0,
        ps + h <= usize::MAX,
    ensures
        weighted_sum(widening_weights(c, ps, h), x, c.len() + j) == weighted_sum(
            widening_weights(c, ps, h),
            x,
            c.len() as int,
        ) - ancilla_value(x, ps, j),
    decreases j,
{
    if j > 0 {
        lemma_ancilla_part(c, ps, h, x, j - 1);
        let ws = widening_weights(c, ps, h);
        assert(ws[c.len() + j - 1] == ((ps + j - 1) as usize, -(pow2((j - 1) as nat) as int)));
        let p = pow2((j - 1) as nat) as int;
        let y = x[ps + j - 1];
        assert(-p * y == -(p * y)) by (nonlinear_arith);
    }
}

/// The widening form of a long clause is `S − 1 − A`.
pub proof fn lemma_widening_form(c: Seq<SatVariable>, ps: int, h: int, x: Seq<int>)
    requires
        h >= 0,
        ps >= 0,
        ps + h <= usize::MAX,
        is_binary(x),
        forall|l: int| 0 <= l < c.len() ==> (#[trigger] c[l]).1 < x.len(),
    ensures
        widening_constant(c) + weighted_sum(widening_weights(c, ps, h), x, c.len() + h) == true_count(
            c,
            x,
            c.len() as int,
        ) - 1 - ancilla_value(x, ps, h),
{
    lemma_literal_part(c, ps, h, x, c.len() as int);
    lemma_ancilla_part(c, ps, h, x, h);
}

proof fn lemma_ancilla_nonnegative(x: Seq<int>, ps: int, j: int)
    requires
        is_binary(x),
        0 <= ps,
        ps + j <= x.len(),
    ensures
        ancilla_value(x, ps, j) >= 0,
    decreases j,
{
    if j > 0 {
        lemma_ancilla_nonnegative(x, ps, j - 1);
        assert(x[ps + j - 1] == 0 || x[ps + j - 1] == 1);
        assert(pow2((j - 1) as nat) * x[ps + j - 1] >= 0) by (nonlinear_arith)
            requires
                x[ps + j - 1] == 0 || x[ps + j - 1] == 1,
        ;
    }
}

/// `x` with the counting ancillas `ps .. ps + h` holding the binary digits of `n`.
pub open spec fn with_ancillas(x: Seq<int>, ps: int, h: int, n: int) -> Seq<int> {
    Seq::new(
        x.len(),
        |i: int|
            if ps <= i < ps + h {
                (n / (pow2((i - ps) as nat) as int)) % 2
            } else {
                x[i]
            },
    )
}

/// Powers of two are positive.
pub proof fn lemma_pow2_positive(e: nat)
    ensures
        pow2(e) > 0,
    decreases e,
{
    if e > 0 {
        lemma_pow2_positive((e - 1) as nat);
    }
}

proof fn lemma_digits(x: Seq<int>, ps: int, h: int, n: int, j: int)
    requires
        0 <= ps,
        ps + h <= x.len(),
        0 <= j <= h,
        n >= 0,
    ensures
        ancilla_value(with_ancillas(x, ps, h, n), ps, j) == n % (pow2(j as nat) as int),
    decreases j,
{
    if j == 0 {
        assert(n % 1 == 0);
    } else {
        lemma_digits(x, ps, h, n, j - 1);
        let p = pow2((j - 1) as nat) as int;
        lemma_pow2_positive((j - 1) as nat);
        assert(pow2(j as nat) == 2 * pow2((j - 1) as nat));
        lemma_mod_breakdown(n, p, 2);
        assert(p * 2 == pow2(j as nat) as int);
        let y = with_ancillas(x, ps, h, n);
        assert(y[ps + j - 1] == (n / p) % 2);
        assert(p * ((n / p) % 2) == pow2((j - 1) as nat) * y[ps + j - 1]);
    }
}

/// The penalty of a long clause: for every setting of the counting ancillas the
/// widening form squared is at least 1 when no literal holds, and some setting
/// of the ancillas alone brings it down to exactly 0 when some literal holds
/// and to exactly 1 when none does.
pub proof fn lemma_widening_penalty(c: Seq<SatVariable>, ps: int, h: int, x: Seq<int>)
    requires
        0 <= ps,
        0 <= h,
        ps + h <= x.len(),
        ps + h <= usize::MAX,
        c.len() < pow2(h as nat),
        is_binary(x),
        forall|l: int| 0 <= l < c.len() ==> (#[trigger] c[l]).1 < ps,
    ensures
        ({
            let none = true_count(c, x, c.len() as int) == 0;
            &&& widening_form(c, ps, h, x) * widening_form(c, ps, h, x) >= (if none {
                1int
            } else {
                0
            })
            &&& exists|y: Seq<int>|
                #![trigger widening_form(c, ps, h, y)]
                is_binary(y) && y.len() == x.len() && (forall|i: int|
                    0 <= i < x.len() && !(ps <= i < ps + h) ==> y[i] == x[i]) && widening_form(
                    c,
                    ps,
                    h,
                    y,
                ) * widening_form(c, ps, h, y) == (if none {
                    1int
                } else {
                    0
                })
        }),
{
    let s = true_count(c, x, c.len() as int);
    assert forall|l: int| 0 <= l < c.len() implies (#[trigger] c[l]).1 < x.len() by {
        assert(c[l].1 < ps);
    }
    lemma_count_bounds(c, x, c.len() as int);
    lemma_widening_form(c, ps, h, x);
    lemma_ancilla_nonnegative(x, ps, h);
    let fx = s - 1 - ancilla_value(x, ps, h);
    if s == 0 {
        assert(fx <= -1);
        assert(fx * fx >= 1) by (nonlinear_arith)
            requires
                fx <= -1,
        ;
    } else {
        assert(fx * fx >= 0) by (nonlinear_arith);
    }
    let n = if s == 0 {
        0
    } else {
        s - 1
    };
    let y = with_ancillas(x, ps, h, n);
    lemma_pow2_positive(h as nat);
    assert(is_binary(y)) by {
        assert forall|i: int| 0 <= i < y.len() implies #[trigger] y[i] == 0 || y[i] == 1 by {
            if ps <= i < ps + h {
                lemma_pow2_positive((i - ps) as nat);
            }
        }
    }
    lemma_digits(x, ps, h, n, h);
    lemma_small_mod(n as nat, pow2(h as nat));
    assert forall|l: int| 0 <= l < c.len() implies (#[trigger] c[l]).1 < y.len() by {
        assert(c[l].1 < ps);
    }
    assert forall|i: int| 0 <= i < ps && i < x.len() implies y[i] == x[i] by {}
    lemma_same_count(c, x, y, c.len() as int, ps);
    lemma_widening_form(c, ps, h, y);
    let fy = widening_form(c, ps, h, y);
    assert(fy == s - 1 - n);
    assert(forall|i: int| 0 <= i < x.len() && !(ps <= i < ps + h) ==> y[i] == x[i]);
    if s == 0 {
        assert(fy * fy == 1);
    } else {
        assert(fy * fy == 0);
    }
}

proof fn lemma_count_bounds(c: Seq<SatVariable>, x: Seq<int>, m: int)
    requires
        0 <= m <= c.len(),
        is_binary(x),
        forall|l: int| 0 <= l < c.len() ==> (#[trigger] c[l]).1 < x.len(),
    ensures
        0 <= true_count(c, x, m) <= m,
    decreases m,
{
    if m > 0 {
        lemma_count_bounds(c, x, m - 1);
        assert(x[c[m - 1].1 as int] == 0 || x[c[m - 1].1 as int] == 1);
    }
}

proof fn lemma_same_count(c: Seq<SatVariable>, x: Seq<int>, y: Seq<int>, m: int, ps: int)
    requires
        0 <= m <= c.len(),
        forall|l: int| 0 <= l < c.len() ==> (#[trigger] c[l]).1 < ps,
        forall|i: int| 0 <= i < ps && i < x.len() ==> y[i] == x[i],
        forall|l: int| 0 <= l < c.len() ==> (#[trigger] c[l]).1 < x.len(),
    ensures
        true_count(c, y, m) == true_count(c, x, m),
    decreases m,
{
    if m > 0 {
        lemma_same_count(c, x, y, m - 1, ps);
        assert(c[m - 1].1 < ps);
    }
}

/// The literals of `c` name distinct variables below `ps`.
pub open spec fn distinct_below(c: Seq<SatVariable>, ps: int) -> bool {
    &&& forall|l: int| 0 <= l < c.len() ==> (#[trigger] c[l]).1 < ps
    &&& forall|a: int, b: int| 0 <= a < b < c.len() ==> (#[trigger] c[a]).1 != (#[trigger] c[b]).1
}

/// The energy of the widening terms is twice the squared widening form, less
/// twice the squared constant.
pub proof fn lemma_widening_energy(c: Seq<SatVariable>, ps: int, h: int, x: Seq<int>)
    requires
        0 <= ps,
        0 <= h <= 20,
        ps + h <= x.len(),
        ps + h <= usize::MAX,
        c.len() <= 1048576,
        distinct_below(c, ps),
        is_binary(x),
    ensures
        triplets_energy(widening_terms(c, ps, h), x, widening_terms(c, ps, h).len() as int) + 2
            * widening_constant(c) * widening_constant(c) == 2 * widening_form(c, ps, h, x)
            * widening_form(c, ps, h, x),
{
    let ws = widening_weights(c, ps, h);
    let k = c.len() as int;
    lemma_neg_count_bounds(c, k);
    assert forall|r: int| 0 <= r < k + h implies (#[trigger] ws[r]).0 < x.len() && -WEIGHT_LIMIT
        <= ws[r].1 <= WEIGHT_LIMIT by {
        if r < k {
            assert(ws[r] == (c[r].1, spin(c[r].0)));
        } else {
            assert(ws[r] == ((ps + r - k) as usize, -(pow2((r - k) as nat) as int)));
            lemma_pow2_at_most((r - k) as nat);
            lemma_pow2_positive((r - k) as nat);
        }
    }
    assert forall|a: int, b: int| 0 <= a < b < k + h implies (#[trigger] ws[a]).0 != (
    #[trigger] ws[b]).0 by {
        if b < k {
            assert(ws[a] == (c[a].1, spin(c[a].0)) && ws[b] == (c[b].1, spin(c[b].0)));
        } else if a < k {
            assert(ws[a] == (c[a].1, spin(c[a].0)));
            assert(ws[b].0 == (ps + b - k) as usize);
            assert(c[a].1 < ps);
        } else {
            assert(ws[a].0 == (ps + a - k) as usize && ws[b].0 == (ps + b - k) as usize);
        }
    }
    lemma_square_energy(ws, widening_constant(c), x, k + h);
    let cc = widening_constant(c);
    let sw = weighted_sum(ws, x, k + h);
    assert(2 * ((cc + sw) * (cc + sw) - cc * cc) + 2 * cc * cc == 2 * (cc + sw) * (cc + sw))
        by (nonlinear_arith);
}

proof fn lemma_neg_count_bounds(c: Seq<SatVariable>, m: int)
    requires
        0 <= m <= c.len(),
    ensures
        0 <= neg_count(c, m) <= m,
    decreases m,
{
    if m > 0 {
        lemma_neg_count_bounds(c, m - 1);
    }
}

/// The weighted bits of a long clause, as machine integers.
pub fn widening_weights_exec(clause: &Vec<SatVariable>, ps: usize, h: usize) -> (r: Vec<(usize, i64)>)
    requires
        ps + h <= usize::MAX,
        h <= 20,
    ensures
        r@.len() == clause@.len() + h,
        forall|k: int| 0 <= k < r@.len() ==> (#[trigger] r@[k]).0 == widening_weights(clause@, ps as int, h as int)[k].0
            && r@[k].1 as int == widening_weights(clause@, ps as int, h as int)[k].1,
{
    let ghost ws = widening_weights(clause@, ps as int, h as int);
    let mut r: Vec<(usize, i64)> = Vec::new();
    let mut l: usize = 0;
    while l < clause.len()
        invariant
            ws == widening_weights(clause@, ps as int, h as int),
            l <= clause@.len(),
            r@.len() == l,
            forall|k: int| 0 <= k < l ==> (#[trigger] r@[k]).0 == ws[k].0 && r@[k].1 as int == ws[k].1,
        decreases clause@.len() - l,
    {
        let SatVariable(pol, v) = clause[l];
        r.push((v, if pol { 1 } else { -1 }));
        l += 1;
    }
    let mut p: i64 = 1;
    let mut j: usize = 0;
    while j < h
        invariant
            ws == widening_weights(clause@, ps as int, h as int),
            ps + h <= usize::MAX,
            h <= 20,
            j <= h,
            p == pow2(j as nat),
            p <= 1048576,
            r@.len() == clause@.len() + j,
            forall|k: int| 0 <= k < clause@.len() + j ==> (#[trigger] r@[k]).0 == ws[k].0 && r@[k].1 as int == ws[k].1,
        decreases h - j,
    {
        r.push((ps + j, -p));
        proof {
            assert(pow2(j as nat + 1) == 2 * pow2(j as nat));
            lemma_pow2_at_most(j as nat + 1);
        }
        j += 1;
        p = p * 2;
    }
    r
}

proof fn lemma_pow2_at_most(e: nat)
    requires
        e <= 20,
    ensures
        pow2(e) <= 1048576,
    decreases 20 - e,
{
    if e < 20 {
        lemma_pow2_at_most(e + 1);
        assert(pow2(e + 1) == 2 * pow2(e));
        lemma_pow2_positive(e);
    } else {
        reveal_with_fuel(pow2, 21);
    }
}

/// Appends the square terms of a linear form with weights `ws` and constant `c`.
pub fn push_square_terms(triplets: &mut Vec<Triplet>, ws: &Vec<(usize, i64)>, c: i64)
    requires
        -WEIGHT_LIMIT <= c <= WEIGHT_LIMIT,
        forall|k: int| 0 <= k < ws@.len() ==> -WEIGHT_LIMIT <= (#[trigger] ws@[k]).1 <= WEIGHT_LIMIT,
    ensures
        final(triplets)@ == old(triplets)@ + square_terms(
            ws@.map_values(|p: (usize, i64)| (p.0, p.1 as int)),
            c as int,
            ws@.len() as int,
        ),
{
    let ghost wv = ws@.map_values(|p: (usize, i64)| (p.0, p.1 as int));
    let ghost before = triplets@;
    let mut r: usize = 0;
    while r < ws.len()
        invariant
            wv == ws@.map_values(|p: (usize, i64)| (p.0, p.1 as int)),
            -WEIGHT_LIMIT <= c <= WEIGHT_LIMIT,
            forall|k: int| 0 <= k < ws@.len() ==> -WEIGHT_LIMIT <= (#[trigger] ws@[k]).1 <= WEIGHT_LIMIT,
            r <= ws@.len(),
            triplets@ == before + square_terms(wv, c as int, r as int),
        decreases ws@.len() - r,
    {
        let (u, w) = ws[r];
        assert(wv[r as int] == (u, w as int));
        proof {
            assert(-2 * 1048576 * 1048576 <= 2 * c * w <= 2 * 1048576 * 1048576)
                by (nonlinear_arith)
                requires
                    -1048576 <= c <= 1048576,
                    -1048576 <= w <= 1048576,
            ;
            assert(0 <= w * w <= 1048576 * 1048576) by (nonlinear_arith)
                requires
                    -1048576 <= w <= 1048576,
            ;
        }
        let ghost head = triplets@;
        triplets.push((u, u, 2 * (2 * c * w + w * w)));
        let ghost with_diag = triplets@;
        let mut t: usize = 0;
        while t < r
            invariant
                wv == ws@.map_values(|p: (usize, i64)| (p.0, p.1 as int)),
                r < ws@.len(),
                wv[r as int] == (u, w as int),
                -WEIGHT_LIMIT <= w <= WEIGHT_LIMIT,
                forall|k: int| 0 <= k < ws@.len() ==> -WEIGHT_LIMIT <= (#[trigger] ws@[k]).1 <= WEIGHT_LIMIT,
                t <= r,
                triplets@ == with_diag + cross_terms(wv, r as int).take(t as int),
            decreases r - t,
        {
            let (us, wt) = ws[t];
            assert(wv[t as int] == (us, wt as int));
            proof {
                assert(-2 * 1048576 <= 2 * wt <= 2 * 1048576);
                assert(-2 * 1048576 * 1048576 <= 2 * wt * w <= 2 * 1048576 * 1048576)
                    by (nonlinear_arith)
                    requires
                        -1048576 <= wt <= 1048576,
                        -1048576 <= w <= 1048576,
                ;
            }
            triplets.push((us, u, 2 * wt * w));
            t += 1;
            assert(triplets@ =~= with_diag + cross_terms(wv, r as int).take(t as int));
        }
        assert(cross_terms(wv, r as int).take(r as int) =~= cross_terms(wv, r as int));
        r += 1;
        assert(triplets@ =~= before + square_terms(wv, c as int, r as int));
    }
}

} // verus!
