//! The QUBO of an Ising model: its energy plus the offset is the Ising energy
//! `H(σ)`, and reading the Ising form back gives four times the biases and
//! couplings.
use vstd::prelude::*;
use crate::qubo::{
    bias_sum,
    coupling_sum,
    ising_offset,
    sigma,
    dot,
    energy,
    energy_upto,
    is_binary,
    ising_bias_of,
    ising_bias_triplets,
    ising_coupling_of,
    ising_coupling_triplets,
    ising_small,
    ising_triplets,
    off_diagonal_sum,
    symmetrize,
    triplet_sum,
    triplets_outcome,
    triplets_upper,
    MAX_COEFF,
};

verus! {

/// `Σ` of the first `m` biases on spin `i`.
pub open spec fn bias_at(hs: Seq<(usize, i64)>, i: int, m: int) -> int
    decreases m,
{
    if m <= 0 {
        0
    } else {
        bias_at(hs, i, m - 1) + (if hs[m - 1].0 == i {
            hs[m - 1].1 as int
        } else {
            0
        })
    }
}

/// `Σ` of the first `m` couplings at `(i, j)`.
pub open spec fn coupling_at(js: Seq<(usize, usize, i64)>, i: int, j: int, m: int) -> int
    decreases m,
{
    if m <= 0 {
        0
    } else {
        coupling_at(js, i, j, m - 1) + (if js[m - 1].0 == i && js[m - 1].1 == j {
            js[m - 1].2 as int
        } else {
            0
        })
    }
}

/// `Σ` of the first `m` couplings between spin `i` and another spin.
pub open spec fn touching(js: Seq<(usize, usize, i64)>, i: int, m: int) -> int
    decreases m,
{
    if m <= 0 {
        0
    } else {
        touching(js, i, m - 1) + (if js[m - 1].0 != js[m - 1].1 && (js[m - 1].0 == i || js[m
            - 1].1 == i) {
            js[m - 1].2 as int
        } else {
            0
        })
    }
}

/// `Σ_{j < k, j ≠ i}` of the couplings at `(i, j)` and `(j, i)`.
pub open spec fn pair_sum(js: Seq<(usize, usize, i64)>, m: int, i: int, k: int) -> int
    decreases k,
{
    if k <= 0 {
        0
    } else {
        pair_sum(js, m, i, k - 1) + (if k - 1 == i {
            0
        } else {
            coupling_at(js, i, k - 1, m) + coupling_at(js, k - 1, i, m)
        })
    }
}

proof fn lemma_triplet_sum_concat(
    a: Seq<(usize, usize, i64)>,
    b: Seq<(usize, usize, i64)>,
    i: int,
    j: int,
    m: int,
)
    requires
        0 <= m <= b.len(),
    ensures
        triplet_sum(a + b, i, j, a.len() + m) == triplet_sum(a, i, j, a.len() as int)
            + triplet_sum(b, i, j, m),
    decreases m,
{
    if m > 0 {
        lemma_triplet_sum_concat(a, b, i, j, m - 1);
        assert((a + b)[a.len() + m - 1] == b[m - 1]);
    } else {
        lemma_triplet_sum_prefix(a, b, i, j, a.len() as int);
    }
}

proof fn lemma_triplet_sum_prefix(ts: Seq<(usize, usize, i64)>, extra: Seq<(usize, usize, i64)>, i: int, j: int, m: int)
    requires
        0 <= m <= ts.len(),
    ensures
        triplet_sum(ts + extra, i, j, m) == triplet_sum(ts, i, j, m),
    decreases m,
{
    if m > 0 {
        lemma_triplet_sum_prefix(ts, extra, i, j, m - 1);
    }
}

proof fn lemma_bias_part(hs: Seq<(usize, i64)>, i: int, j: int, m: int)
    requires
        0 <= m <= hs.len(),
        forall|t: int| 0 <= t < hs.len() ==> -MAX_COEFF <= (#[trigger] hs[t]).1 <= MAX_COEFF,
    ensures
        triplet_sum(ising_bias_triplets(hs, m), i, j, ising_bias_triplets(hs, m).len() as int)
            == (if i == j {
            2 * bias_at(hs, i, m)
        } else {
            0
        }),
        ising_bias_triplets(hs, m).len() == m,
    decreases m,
{
    if m > 0 {
        lemma_bias_part(hs, i, j, m - 1);
        let prev = ising_bias_triplets(hs, m - 1);
        let t = (hs[m - 1].0, hs[m - 1].0, (2 * hs[m - 1].1) as i64);
        assert(-MAX_COEFF <= hs[m - 1].1 <= MAX_COEFF);
        lemma_triplet_sum_prefix(prev, seq![t], i, j, prev.len() as int);
        assert(prev.push(t) =~= prev + seq![t]);
    }
}

proof fn lemma_coupling_part(js: Seq<(usize, usize, i64)>, i: int, j: int, m: int)
    requires
        0 <= m <= js.len(),
        forall|t: int| 0 <= t < js.len() ==> -MAX_COEFF <= (#[trigger] js[t]).2 <= MAX_COEFF,
    ensures
        triplet_sum(
            ising_coupling_triplets(js, m),
            i,
            j,
            ising_coupling_triplets(js, m).len() as int,
        ) == (if i == j {
            -2 * touching(js, i, m)
        } else {
            2 * coupling_at(js, i, j, m)
        }),
    decreases m,
{
    if m > 0 {
        lemma_coupling_part(js, i, j, m - 1);
        let prev = ising_coupling_triplets(js, m - 1);
        let t = js[m - 1];
        assert(-MAX_COEFF <= t.2 <= MAX_COEFF);
        if t.2 != 0 && t.0 != t.1 {
            let t1 = (t.0, t.1, (2 * t.2) as i64);
            let t2 = (t.0, t.0, (-2 * t.2) as i64);
            let t3 = (t.1, t.1, (-2 * t.2) as i64);
            let pre1 = prev.push(t1);
            let pre2 = pre1.push(t2);
            lemma_triplet_sum_prefix(prev, seq![t1], i, j, prev.len() as int);
            assert(pre1 =~= prev + seq![t1]);
            lemma_triplet_sum_prefix(pre1, seq![t2], i, j, pre1.len() as int);
            assert(pre2 =~= pre1 + seq![t2]);
            lemma_triplet_sum_prefix(pre2, seq![t3], i, j, pre2.len() as int);
            assert(pre2.push(t3) =~= pre2 + seq![t3]);
        }
    }
}

proof fn lemma_pair_step(js: Seq<(usize, usize, i64)>, m: int, i: int, k: int)
    requires
        0 < m <= js.len(),
        0 <= k,
    ensures
        pair_sum(js, m, i, k) == pair_sum(js, m - 1, i, k) + (if js[m - 1].0 == i && js[m - 1].1
            != i && js[m - 1].1 < k {
            js[m - 1].2 as int
        } else {
            0
        }) + (if js[m - 1].1 == i && js[m - 1].0 != i && js[m - 1].0 < k {
            js[m - 1].2 as int
        } else {
            0
        }),
    decreases k,
{
    if k > 0 {
        lemma_pair_step(js, m, i, k - 1);
    }
}

proof fn lemma_pair_touching(js: Seq<(usize, usize, i64)>, m: int, i: int, n: int)
    requires
        0 <= m <= js.len(),
        0 <= n,
        forall|t: int| 0 <= t < js.len() ==> (#[trigger] js[t]).0 < n && js[t].1 < n,
    ensures
        pair_sum(js, m, i, n) == touching(js, i, m),
    decreases m,
{
    if m == 0 {
        lemma_pair_zero(js, i, n);
    } else {
        lemma_pair_touching(js, m - 1, i, n);
        lemma_pair_step(js, m, i, n);
        assert(js[m - 1].0 < n && js[m - 1].1 < n);
    }
}

proof fn lemma_pair_zero(js: Seq<(usize, usize, i64)>, i: int, k: int)
    requires
        0 <= k,
    ensures
        pair_sum(js, 0, i, k) == 0,
    decreases k,
{
    if k > 0 {
        lemma_pair_zero(js, i, k - 1);
    }
}

/// The QUBO matrix of an Ising model, by its triplets.
pub open spec fn ising_matrix(n: int, js: Seq<(usize, usize, i64)>, hs: Seq<(usize, i64)>) -> Seq<
    Seq<int>,
> {
    symmetrize(triplets_upper(n, ising_triplets(js, hs)), n)
}

proof fn lemma_upper_entry(n: int, js: Seq<(usize, usize, i64)>, hs: Seq<(usize, i64)>, i: int, j: int)
    requires
        ising_small(js, hs),
        0 <= i < n,
        0 <= j < n,
    ensures
        triplets_upper(n, ising_triplets(js, hs))[i][j] == (if i == j {
            2 * bias_at(hs, i, hs.len() as int) - 2 * touching(js, i, js.len() as int)
        } else {
            2 * coupling_at(js, i, j, js.len() as int)
        }),
{
    let a = ising_bias_triplets(hs, hs.len() as int);
    let b = ising_coupling_triplets(js, js.len() as int);
    lemma_bias_part(hs, i, j, hs.len() as int);
    lemma_coupling_part(js, i, j, js.len() as int);
    lemma_triplet_sum_concat(a, b, i, j, b.len() as int);
}

proof fn lemma_off_diagonal(n: int, js: Seq<(usize, usize, i64)>, hs: Seq<(usize, i64)>, i: int, k: int)
    requires
        ising_small(js, hs),
        0 <= i < n,
        0 <= k <= n,
    ensures
        off_diagonal_sum(ising_matrix(n, js, hs)[i], i, k) == 2 * pair_sum(js, js.len() as int, i, k),
    decreases k,
{
    if k > 0 {
        lemma_off_diagonal(n, js, hs, i, k - 1);
        if k - 1 != i {
            lemma_upper_entry(n, js, hs, i, k - 1);
            lemma_upper_entry(n, js, hs, k - 1, i);
        }
    }
}

/// The Ising round trip: for the QUBO matrix `S` of an Ising model with
/// couplings `js` and biases `hs` on `n` spins, the Ising form read back from
/// `S` has, on each spin `i`, four times the sum of the biases on `i`, and on
/// each pair `i < j`, four times the sum of the couplings at `(i, j)` and `(j, i)`.
pub proof fn lemma_ising_round_trip(n: int, js: Seq<(usize, usize, i64)>, hs: Seq<(usize, i64)>)
    requires
        ising_small(js, hs),
        n >= 0,
        forall|t: int| 0 <= t < js.len() ==> (#[trigger] js[t]).0 < n && js[t].1 < n,
    ensures
        triplets_outcome(n, ising_triplets(js, hs)) matches Ok(s) ==> s == ising_matrix(n, js, hs),
        forall|i: int|
            0 <= i < n ==> #[trigger] ising_bias_of(ising_matrix(n, js, hs), i) == 4 * bias_at(
                hs,
                i,
                hs.len() as int,
            ),
        forall|i: int, j: int|
            0 <= i < j < n ==> #[trigger] ising_coupling_of(ising_matrix(n, js, hs), i, j) == 4 * (
            coupling_at(js, i, j, js.len() as int) + coupling_at(js, j, i, js.len() as int)),
{
    let s = ising_matrix(n, js, hs);
    assert forall|i: int| 0 <= i < n implies #[trigger] ising_bias_of(s, i) == 4 * bias_at(
        hs,
        i,
        hs.len() as int,
    ) by {
        lemma_upper_entry(n, js, hs, i, i);
        lemma_off_diagonal(n, js, hs, i, n);
        lemma_pair_touching(js, js.len() as int, i, n);
        assert(s.len() == n);
    }
    assert forall|i: int, j: int| 0 <= i < j < n implies #[trigger] ising_coupling_of(s, i, j) == 4
        * (coupling_at(js, i, j, js.len() as int) + coupling_at(js, j, i, js.len() as int)) by {
        lemma_upper_entry(n, js, hs, i, j);
        lemma_upper_entry(n, js, hs, j, i);
    }
}

/// The energy contribution of one triplet `(a, b, v)` under symmetric storage:
/// `v·x[a]` on the diagonal, `2·v·x[a]·x[b]` off it.
pub open spec fn triplet_energy(t: (usize, usize, i64), x: Seq<int>) -> int {
    if t.0 == t.1 {
        t.2 * x[t.0 as int]
    } else {
        2 * t.2 * x[t.0 as int] * x[t.1 as int]
    }
}

/// `Σ` of the energy contributions of the first `m` triplets.
pub open spec fn triplets_energy(ts: Seq<(usize, usize, i64)>, x: Seq<int>, m: int) -> int
    decreases m,
{
    if m <= 0 {
        0
    } else {
        triplets_energy(ts, x, m - 1) + triplet_energy(ts[m - 1], x)
    }
}

/// The symmetric matrix of the single triplet `t`.
pub open spec fn single(n: int, t: (usize, usize, i64)) -> Seq<Seq<int>> {
    Seq::new(
        n as nat,
        |i: int|
            Seq::new(
                n as nat,
                |j: int|
                    if (i == t.0 && j == t.1) || (i == t.1 && j == t.0) {
                        t.2 as int
                    } else {
                        0
                    },
            ),
    )
}

proof fn lemma_dot_add(r: Seq<int>, p: Seq<int>, q: Seq<int>, x: Seq<int>, m: int)
    requires
        forall|j: int| 0 <= j < m ==> #[trigger] r[j] == p[j] + q[j],
    ensures
        dot(r, x, m) == dot(p, x, m) + dot(q, x, m),
    decreases m,
{
    if m > 0 {
        lemma_dot_add(r, p, q, x, m - 1);
        let (a, b, c, y) = (r[m - 1], p[m - 1], q[m - 1], x[m - 1]);
        assert(a * y == b * y + c * y) by (nonlinear_arith)
            requires
                a == b + c,
        ;
    }
}

proof fn lemma_energy_add(a: Seq<Seq<int>>, b: Seq<Seq<int>>, c: Seq<Seq<int>>, x: Seq<int>, m: int)
    requires
        forall|i: int, j: int| 0 <= i < m && 0 <= j < x.len() ==> #[trigger] c[i][j] == a[i][j] + b[i][j],
    ensures
        energy_upto(c, x, m) == energy_upto(a, x, m) + energy_upto(b, x, m),
    decreases m,
{
    if m > 0 {
        lemma_energy_add(a, b, c, x, m - 1);
        let i = m - 1;
        assert forall|j: int| 0 <= j < x.len() implies #[trigger] c[i][j] == a[i][j] + b[i][j] by {}
        lemma_dot_add(c[i], a[i], b[i], x, x.len() as int);
        let (dc, da, db, y) = (dot(c[i], x, x.len() as int), dot(a[i], x, x.len() as int), dot(
            b[i],
            x,
            x.len() as int,
        ), x[i]);
        assert(y * dc == y * da + y * db) by (nonlinear_arith)
            requires
                dc == da + db,
        ;
    }
}

proof fn lemma_dot_one(r: Seq<int>, x: Seq<int>, p: int, v: int, m: int)
    requires
        forall|j: int| 0 <= j < m ==> #[trigger] r[j] == (if j == p {
            v
        } else {
            0
        }),
    ensures
        dot(r, x, m) == (if 0 <= p < m {
            v * x[p]
        } else {
            0
        }),
    decreases m,
{
    if m > 0 {
        lemma_dot_one(r, x, p, v, m - 1);
    }
}

proof fn lemma_single_energy(n: int, t: (usize, usize, i64), x: Seq<int>, m: int)
    requires
        x.len() == n,
        t.0 < n,
        t.1 < n,
        0 <= m <= n,
        is_binary(x),
    ensures
        energy_upto(single(n, t), x, m) == (if t.0 == t.1 {
            if t.0 < m {
                t.2 * x[t.0 as int]
            } else {
                0
            }
        } else {
            (if t.0 < m {
                t.2 * x[t.0 as int] * x[t.1 as int]
            } else {
                0
            }) + (if t.1 < m {
                t.2 * x[t.0 as int] * x[t.1 as int]
            } else {
                0
            })
        }),
    decreases m,
{
    if m > 0 {
        lemma_single_energy(n, t, x, m - 1);
        let i = m - 1;
        let row = single(n, t)[i];
        let (a, b, v) = (t.0 as int, t.1 as int, t.2 as int);
        if i == a && a == b {
            lemma_dot_one(row, x, a, v, n);
            assert(x[a] == 0 || x[a] == 1);
            assert(x[a] * (v * x[a]) == v * x[a]) by (nonlinear_arith)
                requires
                    x[a] == 0 || x[a] == 1,
            ;
        } else if i == a {
            lemma_dot_one(row, x, b, v, n);
            assert(x[a] * (v * x[b]) == v * x[a] * x[b]) by (nonlinear_arith);
        } else if i == b {
            lemma_dot_one(row, x, a, v, n);
            assert(x[b] * (v * x[a]) == v * x[a] * x[b]) by (nonlinear_arith);
        } else {
            lemma_dot_one(row, x, -1, 0, n);
        }
    }
}

/// The energy of the symmetric matrix of a triplet list is the sum of the
/// triplets' contributions.
pub proof fn lemma_triplets_energy(n: int, ts: Seq<(usize, usize, i64)>, x: Seq<int>, m: int)
    requires
        x.len() == n,
        is_binary(x),
        0 <= m <= ts.len(),
        forall|t: int| 0 <= t < ts.len() ==> (#[trigger] ts[t]).0 < n && ts[t].1 < n,
    ensures
        energy(symmetrize(triplets_upper(n, ts.take(m)), n), x) == triplets_energy(ts, x, m),
    decreases m,
{
    let cur = symmetrize(triplets_upper(n, ts.take(m)), n);
    if m == 0 {
        lemma_energy_zero_matrix(cur, x, n);
    } else {
        lemma_triplets_energy(n, ts, x, m - 1);
        let prev = symmetrize(triplets_upper(n, ts.take(m - 1)), n);
        let t = ts[m - 1];
        assert(ts.take(m) =~= ts.take(m - 1) + seq![t]);
        assert forall|i: int, j: int| 0 <= i < n && 0 <= j < x.len() implies #[trigger] cur[i][j]
            == prev[i][j] + single(n, t)[i][j] by {
            lemma_triplet_sum_prefix(ts.take(m - 1), seq![t], i, j, m - 1);
            lemma_triplet_sum_prefix(ts.take(m - 1), seq![t], j, i, m - 1);
        }
        lemma_energy_add(prev, single(n, t), cur, x, n);
        lemma_single_energy(n, t, x, n);
        let (a, b, v) = (t.0 as int, t.1 as int, t.2 as int);
        assert(v * x[a] * x[b] + v * x[a] * x[b] == 2 * v * x[a] * x[b]) by (nonlinear_arith);
    }
}

proof fn lemma_energy_zero_matrix(s: Seq<Seq<int>>, x: Seq<int>, m: int)
    requires
        0 <= m <= x.len(),
        forall|i: int, j: int| 0 <= i < m && 0 <= j < x.len() ==> #[trigger] s[i][j] == 0,
    ensures
        energy_upto(s, x, m) == 0,
    decreases m,
{
    if m > 0 {
        lemma_energy_zero_matrix(s, x, m - 1);
        lemma_dot_one(s[m - 1], x, -1, 0, x.len() as int);
    }
}

/// `Σ` over the first `m` biases `(i, h)` of `h·σᵢ`, with `σ = 2x − 1`.
pub open spec fn bias_energy(hs: Seq<(usize, i64)>, x: Seq<int>, m: int) -> int
    decreases m,
{
    if m <= 0 {
        0
    } else {
        bias_energy(hs, x, m - 1) + hs[m - 1].1 * sigma(x[hs[m - 1].0 as int])
    }
}

/// `Σ` over the first `m` couplings `(i, j, J)` of `J·σᵢ·σⱼ`, with `σ = 2x − 1`.
pub open spec fn coupling_energy(js: Seq<(usize, usize, i64)>, x: Seq<int>, m: int) -> int
    decreases m,
{
    if m <= 0 {
        0
    } else {
        coupling_energy(js, x, m - 1) + js[m - 1].2 * sigma(x[js[m - 1].0 as int]) * sigma(
            x[js[m - 1].1 as int],
        )
    }
}

/// The Ising energy `H(σ) = Σ h·σ + Σ J·σσ` of the spins `σ = 2x − 1`.
pub open spec fn hamiltonian(js: Seq<(usize, usize, i64)>, hs: Seq<(usize, i64)>, x: Seq<int>) -> int {
    bias_energy(hs, x, hs.len() as int) + coupling_energy(js, x, js.len() as int)
}

/// Contributions add up over a concatenation.
pub proof fn lemma_triplets_energy_concat(
    a: Seq<(usize, usize, i64)>,
    b: Seq<(usize, usize, i64)>,
    x: Seq<int>,
    m: int,
)
    requires
        0 <= m <= b.len(),
    ensures
        triplets_energy(a + b, x, a.len() + m) == triplets_energy(a, x, a.len() as int)
            + triplets_energy(b, x, m),
    decreases m,
{
    if m > 0 {
        lemma_triplets_energy_concat(a, b, x, m - 1);
        assert((a + b)[a.len() + m - 1] == b[m - 1]);
    } else {
        lemma_triplets_energy_prefix(a, b, x, a.len() as int);
    }
}

proof fn lemma_triplets_energy_prefix(
    a: Seq<(usize, usize, i64)>,
    b: Seq<(usize, usize, i64)>,
    x: Seq<int>,
    m: int,
)
    requires
        0 <= m <= a.len(),
    ensures
        triplets_energy(a + b, x, m) == triplets_energy(a, x, m),
    decreases m,
{
    if m > 0 {
        lemma_triplets_energy_prefix(a, b, x, m - 1);
    }
}

proof fn lemma_bias_energy(hs: Seq<(usize, i64)>, x: Seq<int>, m: int)
    requires
        0 <= m <= hs.len(),
        forall|t: int| 0 <= t < hs.len() ==> -MAX_COEFF <= (#[trigger] hs[t]).1 <= MAX_COEFF,
    ensures
        triplets_energy(ising_bias_triplets(hs, m), x, m) == bias_energy(hs, x, m) + bias_sum(
            hs,
            m,
        ),
        ising_bias_triplets(hs, m).len() == m,
    decreases m,
{
    if m > 0 {
        lemma_bias_energy(hs, x, m - 1);
        let prev = ising_bias_triplets(hs, m - 1);
        let t = (hs[m - 1].0, hs[m - 1].0, (2 * hs[m - 1].1) as i64);
        assert(-MAX_COEFF <= hs[m - 1].1 <= MAX_COEFF);
        lemma_triplets_energy_prefix(prev, seq![t], x, m - 1);
        assert(prev.push(t) =~= prev + seq![t]);
        let (h, y) = (hs[m - 1].1 as int, x[hs[m - 1].0 as int]);
        assert(2 * h * y == h * (2 * y - 1) + h) by (nonlinear_arith);
    }
}

proof fn lemma_coupling_energy(js: Seq<(usize, usize, i64)>, x: Seq<int>, m: int)
    requires
        0 <= m <= js.len(),
        is_binary(x),
        forall|t: int| 0 <= t < js.len() ==> -MAX_COEFF <= (#[trigger] js[t]).2 <= MAX_COEFF,
        forall|t: int| 0 <= t < js.len() ==> (#[trigger] js[t]).0 < x.len() && js[t].1 < x.len(),
    ensures
        triplets_energy(
            ising_coupling_triplets(js, m),
            x,
            ising_coupling_triplets(js, m).len() as int,
        ) == coupling_energy(js, x, m) - coupling_sum(js, m),
    decreases m,
{
    if m > 0 {
        lemma_coupling_energy(js, x, m - 1);
        let prev = ising_coupling_triplets(js, m - 1);
        let t = js[m - 1];
        assert(-MAX_COEFF <= t.2 <= MAX_COEFF);
        assert(t.0 < x.len() && t.1 < x.len());
        let (a, b, v) = (t.0 as int, t.1 as int, t.2 as int);
        let (xa, xb) = (x[a], x[b]);
        assert(xa == 0 || xa == 1);
        assert(xb == 0 || xb == 1);
        if t.2 != 0 && t.0 != t.1 {
            let t1 = (t.0, t.1, (2 * t.2) as i64);
            let t2 = (t.0, t.0, (-2 * t.2) as i64);
            let t3 = (t.1, t.1, (-2 * t.2) as i64);
            let pre1 = prev.push(t1);
            let pre2 = pre1.push(t2);
            lemma_triplets_energy_prefix(prev, seq![t1], x, prev.len() as int);
            assert(pre1 =~= prev + seq![t1]);
            lemma_triplets_energy_prefix(pre1, seq![t2], x, pre1.len() as int);
            assert(pre2 =~= pre1 + seq![t2]);
            lemma_triplets_energy_prefix(pre2, seq![t3], x, pre2.len() as int);
            assert(pre2.push(t3) =~= pre2 + seq![t3]);
            assert(2 * (2 * v) * xa * xb + (-2 * v) * xa + (-2 * v) * xb == v * (2 * xa - 1) * (2
                * xb - 1) - v) by (nonlinear_arith);
        } else if t.0 == t.1 {
            assert(v * (2 * xa - 1) * (2 * xa - 1) == v) by (nonlinear_arith)
                requires
                    xa == 0 || xa == 1,
            ;
        } else {
            assert(v * (2 * xa - 1) * (2 * xb - 1) == 0) by (nonlinear_arith)
                requires
                    v == 0,
            ;
        }
    }
}

/// The QUBO of an Ising model keeps its energies: for every bit vector `x` of
/// the `n` spins, `xᵀ·S·x + offset = H(σ)` with `σ = 2x − 1`. So the minimizers
/// of the QUBO are exactly the ground states of the Ising model.
pub proof fn lemma_ising_energy(
    n: int,
    js: Seq<(usize, usize, i64)>,
    hs: Seq<(usize, i64)>,
    x: Seq<int>,
)
    requires
        ising_small(js, hs),
        x.len() == n,
        is_binary(x),
        forall|t: int| 0 <= t < js.len() ==> (#[trigger] js[t]).0 < n && js[t].1 < n,
        forall|t: int| 0 <= t < hs.len() ==> (#[trigger] hs[t]).0 < n,
    ensures
        energy(ising_matrix(n, js, hs), x) + ising_offset(js, hs) == hamiltonian(js, hs, x),
{
    let a = ising_bias_triplets(hs, hs.len() as int);
    let b = ising_coupling_triplets(js, js.len() as int);
    let ts = ising_triplets(js, hs);
    lemma_bias_energy(hs, x, hs.len() as int);
    lemma_coupling_energy(js, x, js.len() as int);
    lemma_triplets_energy_concat(a, b, x, b.len() as int);
    lemma_bias_indices(hs, hs.len() as int, n);
    lemma_coupling_indices(js, js.len() as int, n);
    assert forall|t: int| 0 <= t < ts.len() implies (#[trigger] ts[t]).0 < n && ts[t].1 < n by {
        if t < a.len() {
            assert(ts[t] == a[t]);
        } else {
            assert(ts[t] == b[t - a.len()]);
        }
    }
    lemma_triplets_energy(n, ts, x, ts.len() as int);
    assert(ts.take(ts.len() as int) =~= ts);
}

proof fn lemma_bias_indices(hs: Seq<(usize, i64)>, m: int, n: int)
    requires
        0 <= m <= hs.len(),
        forall|t: int| 0 <= t < hs.len() ==> (#[trigger] hs[t]).0 < n,
    ensures
        forall|t: int| 0 <= t < ising_bias_triplets(hs, m).len() ==> (#[trigger] ising_bias_triplets(hs, m)[t]).0 < n
            && ising_bias_triplets(hs, m)[t].1 < n,
    decreases m,
{
    if m > 0 {
        lemma_bias_indices(hs, m - 1, n);
        assert(hs[m - 1].0 < n);
        let prev = ising_bias_triplets(hs, m - 1);
        let cur = ising_bias_triplets(hs, m);
        assert forall|t: int| 0 <= t < cur.len() implies (#[trigger] cur[t]).0 < n && cur[t].1 < n by {
            if t < prev.len() {
                assert(cur[t] == prev[t]);
            }
        }
    }
}

proof fn lemma_coupling_indices(js: Seq<(usize, usize, i64)>, m: int, n: int)
    requires
        0 <= m <= js.len(),
        forall|t: int| 0 <= t < js.len() ==> (#[trigger] js[t]).0 < n && js[t].1 < n,
    ensures
        forall|t: int| 0 <= t < ising_coupling_triplets(js, m).len() ==> (#[trigger] ising_coupling_triplets(js, m)[t]).0 < n
            && ising_coupling_triplets(js, m)[t].1 < n,
    decreases m,
{
    if m > 0 {
        lemma_coupling_indices(js, m - 1, n);
        assert(js[m - 1].0 < n && js[m - 1].1 < n);
        let prev = ising_coupling_triplets(js, m - 1);
        let cur = ising_coupling_triplets(js, m);
        assert forall|t: int| 0 <= t < cur.len() implies (#[trigger] cur[t]).0 < n && cur[t].1 < n by {
            if t < prev.len() {
                assert(cur[t] == prev[t]);
            }
        }
    }
}

} // verus!
