//! The QUBO matrix: a symmetric integer matrix `S`, the energy `E(x) = xᵀ·S·x`
//! of a bit vector `x`, and the change of energy caused by flipping one bit.
use vstd::prelude::*;

verus! {

/// Integer type of coefficients, energies and bits.
pub type QuboType = i64;

/// Largest supported dimension of a QUBO matrix.
pub const MAX_SIZE: usize = 1048576;

/// Largest supported absolute value of a stored coefficient.
pub const MAX_COEFF: i64 = 1048576;

/// Bound on the absolute value of any energy: `MAX_SIZE² · MAX_COEFF`.
pub open spec fn energy_limit() -> int {
    1152921504606846976
}

/// A sequence of machine integers seen as mathematical integers.
pub open spec fn ints(v: Seq<i64>) -> Seq<int> {
    v.map_values(|a: i64| a as int)
}

/// A matrix given by rows of machine integers, seen as mathematical integers.
pub open spec fn rows_view(m: Seq<Vec<i64>>) -> Seq<Seq<int>> {
    m.map_values(|r: Vec<i64>| ints(r@))
}

/// How `rows_view` reads row `i` of a matrix of machine integers.
pub proof fn lemma_rows_view(m: Seq<Vec<i64>>, i: int)
    requires
        0 <= i < m.len(),
    ensures
        rows_view(m)[i] == ints(m[i]@),
        rows_view(m)[i].len() == m[i]@.len(),
        forall|j: int| 0 <= j < m[i]@.len() ==> #[trigger] rows_view(m)[i][j] == m[i]@[j] as int,
{
}

/// `Σ_{j < m} r[j]·x[j]`.
pub open spec fn dot(r: Seq<int>, x: Seq<int>, m: int) -> int
    decreases m,
{
    if m <= 0 {
        0
    } else {
        dot(r, x, m - 1) + r[m - 1] * x[m - 1]
    }
}

/// `Σ_{i < m} x[i]·(Σ_j s[i][j]·x[j])`.
pub open spec fn energy_upto(s: Seq<Seq<int>>, x: Seq<int>, m: int) -> int
    decreases m,
{
    if m <= 0 {
        0
    } else {
        energy_upto(s, x, m - 1) + x[m - 1] * dot(s[m - 1], x, x.len() as int)
    }
}

/// The energy `xᵀ·s·x`.
pub open spec fn energy(s: Seq<Seq<int>>, x: Seq<int>) -> int {
    energy_upto(s, x, x.len() as int)
}

/// `x` with bit `k` flipped.
pub open spec fn flip(x: Seq<int>, k: int) -> Seq<int> {
    x.update(k, 1 - x[k])
}

/// The spin `2b − 1` of a bit `b`.
pub open spec fn sigma(b: int) -> int {
    2 * b - 1
}

/// Every entry is 0 or 1.
pub open spec fn is_binary(x: Seq<int>) -> bool {
    forall|i: int| 0 <= i < x.len() ==> #[trigger] x[i] == 0 || x[i] == 1
}

/// `s` is an `n × n` matrix.
pub open spec fn is_square(s: Seq<Seq<int>>, n: int) -> bool {
    s.len() == n && forall|i: int| 0 <= i < n ==> #[trigger] s[i].len() == n
}

/// `s` is a symmetric `n × n` matrix.
pub open spec fn is_symmetric(s: Seq<Seq<int>>, n: int) -> bool {
    is_square(s, n) && forall|i: int, j: int|
        0 <= i < n && 0 <= j < n ==> #[trigger] s[i][j] == s[j][i]
}

/// Every entry of the `n × n` matrix `s` lies in `[−c, c]`.
pub open spec fn is_bounded(s: Seq<Seq<int>>, n: int, c: int) -> bool {
    forall|i: int, j: int| 0 <= i < n && 0 <= j < n ==> -c <= #[trigger] s[i][j] <= c
}

/// A matrix that a `QuboProblem` can hold.
pub open spec fn is_qubo_matrix(s: Seq<Seq<int>>) -> bool {
    is_symmetric(s, s.len() as int) && s.len() <= MAX_SIZE && is_bounded(
        s,
        s.len() as int,
        MAX_COEFF as int,
    )
}

/// `E(flip(x, k)) − E(x)`.
pub open spec fn delta(s: Seq<Seq<int>>, x: Seq<int>, k: int) -> int {
    energy(s, flip(x, k)) - energy(s, x)
}

/// `Σ_{i < m} x[i]·s[i][k]`.
pub open spec fn col_dot(s: Seq<Seq<int>>, x: Seq<int>, k: int, m: int) -> int
    decreases m,
{
    if m <= 0 {
        0
    } else {
        col_dot(s, x, k, m - 1) + x[m - 1] * s[m - 1][k]
    }
}

proof fn lemma_dot_update(r: Seq<int>, x: Seq<int>, k: int, v: int, m: int)
    requires
        0 <= k < x.len(),
        m <= x.len(),
    ensures
        dot(r, x.update(k, v), m) == dot(r, x, m) + (if 0 <= k < m {
            r[k] * (v - x[k])
        } else {
            0
        }),
    decreases m,
{
    if m > 0 {
        lemma_dot_update(r, x, k, v, m - 1);
        if m - 1 == k {
            assert(r[k] * v == r[k] * x[k] + r[k] * (v - x[k])) by (nonlinear_arith);
        }
    }
}

proof fn lemma_energy_update(s: Seq<Seq<int>>, x: Seq<int>, k: int, v: int, m: int)
    requires
        is_square(s, x.len() as int),
        0 <= k < x.len(),
        0 <= m <= x.len(),
    ensures
        energy_upto(s, x.update(k, v), m) == energy_upto(s, x, m) + (if k < m {
            (v - x[k]) * dot(s[k], x, x.len() as int)
        } else {
            0
        }) + (v - x[k]) * col_dot(s, x.update(k, v), k, m),
    decreases m,
{
    if m > 0 {
        let n = x.len() as int;
        let y = x.update(k, v);
        let d = v - x[k];
        let i = m - 1;
        lemma_energy_update(s, x, k, v, m - 1);
        lemma_dot_update(s[i], x, k, v, n);
        let dd = dot(s[i], x, n);
        let ddk = dot(s[k], x, n);
        let sik = s[i][k];
        let e0 = energy_upto(s, x, m - 1);
        let e0y = energy_upto(s, y, m - 1);
        let c0 = col_dot(s, y, k, m - 1);
        assert(e0y == e0 + (if k < m - 1 { d * ddk } else { 0 }) + d * c0);
        assert(y.len() == n);
        assert(energy_upto(s, y, m) == e0y + y[i] * dot(s[i], y, n));
        assert(energy_upto(s, x, m) == e0 + x[i] * dd);
        assert(dot(s[i], y, n) == dd + sik * d);
        assert(col_dot(s, y, k, m) == c0 + y[i] * sik);
        assert(y[i] * (dd + sik * d) == y[i] * dd + d * (y[i] * sik)) by (nonlinear_arith);
        assert(d * c0 + d * (y[i] * sik) == d * (c0 + y[i] * sik)) by (nonlinear_arith);
        if i == k {
            assert(y[i] == x[i] + d);
            assert(y[i] * dd == x[i] * dd + d * dd) by (nonlinear_arith)
                requires
                    y[i] == x[i] + d,
            ;
        } else {
            assert(y[i] == x[i]);
        }
    }
}

proof fn lemma_col_dot_symmetric(s: Seq<Seq<int>>, x: Seq<int>, k: int, m: int)
    requires
        is_symmetric(s, x.len() as int),
        0 <= k < x.len(),
        0 <= m <= x.len(),
    ensures
        col_dot(s, x, k, m) == dot(s[k], x, m),
    decreases m,
{
    if m > 0 {
        lemma_col_dot_symmetric(s, x, k, m - 1);
        assert(s[m - 1][k] == s[k][m - 1]);
        assert(x[m - 1] * s[m - 1][k] == s[k][m - 1] * x[m - 1]) by (nonlinear_arith)
            requires
                s[m - 1][k] == s[k][m - 1],
        ;
    }
}

/// The closed form of a single-flip delta:
/// `delta(s, x, k) = −2·σ(x[k])·Σ_j s[k][j]·x[j] + s[k][k]`.
pub proof fn lemma_delta_formula(s: Seq<Seq<int>>, x: Seq<int>, k: int)
    requires
        is_symmetric(s, x.len() as int),
        is_binary(x),
        0 <= k < x.len(),
    ensures
        delta(s, x, k) == -2 * sigma(x[k]) * dot(s[k], x, x.len() as int) + s[k][k],
{
    let n = x.len() as int;
    let v = 1 - x[k];
    let y = x.update(k, v);
    let d = v - x[k];
    lemma_energy_update(s, x, k, v, n);
    assert(is_symmetric(s, y.len() as int));
    lemma_col_dot_symmetric(s, y, k, n);
    lemma_dot_update(s[k], x, k, v, n);
    let dd = dot(s[k], x, n);
    let skk = s[k][k];
    assert(x[k] == 0 || x[k] == 1);
    assert(d * dd + d * (dd + skk * d) == -2 * sigma(x[k]) * dd + skk) by (nonlinear_arith)
        requires
            d == 1 - 2 * x[k],
            x[k] == 0 || x[k] == 1,
    ;
}

/// Flipping bit `k` twice restores the energy: the delta of `k` changes sign
/// once `k` has been flipped.
pub proof fn lemma_delta_involution(s: Seq<Seq<int>>, x: Seq<int>, k: int)
    requires
        0 <= k < x.len(),
    ensures
        delta(s, flip(x, k), k) == -delta(s, x, k),
{
    assert(flip(flip(x, k), k) =~= x);
}

/// How the delta of bit `k` changes when bit `j` is flipped first:
/// `delta(s, flip(x, j), k)` is `−delta(s, x, k)` for `j = k`, and
/// `delta(s, x, k) + 2·s[j][k]·σ(x[j])·σ(x[k])` otherwise.
pub proof fn lemma_delta_after_flip(s: Seq<Seq<int>>, x: Seq<int>, j: int, k: int)
    requires
        is_symmetric(s, x.len() as int),
        is_binary(x),
        0 <= j < x.len(),
        0 <= k < x.len(),
    ensures
        delta(s, flip(x, j), k) == (if j == k {
            -delta(s, x, k)
        } else {
            delta(s, x, k) + 2 * s[j][k] * sigma(x[j]) * sigma(x[k])
        }),
{
    if j == k {
        lemma_delta_involution(s, x, k);
    } else {
        let n = x.len() as int;
        let y = flip(x, j);
        assert(is_binary(y));
        lemma_delta_formula(s, x, k);
        lemma_delta_formula(s, y, k);
        lemma_dot_update(s[k], x, j, 1 - x[j], n);
        assert(s[k][j] == s[j][k]);
        let dd = dot(s[k], x, n);
        let skj = s[k][j];
        assert(x[j] == 0 || x[j] == 1);
        assert(-2 * sigma(x[k]) * (dd + skj * (1 - x[j] - x[j])) == -2 * sigma(x[k]) * dd + 2
            * skj * sigma(x[j]) * sigma(x[k])) by (nonlinear_arith);
    }
}

/// The all-zero vector has energy zero.
pub proof fn lemma_energy_zero(s: Seq<Seq<int>>, x: Seq<int>, m: int)
    requires
        forall|i: int| 0 <= i < x.len() ==> #[trigger] x[i] == 0,
        m <= x.len(),
    ensures
        energy_upto(s, x, m) == 0,
    decreases m,
{
    if m > 0 {
        lemma_energy_zero(s, x, m - 1);
        assert(x[m - 1] == 0);
    }
}

proof fn lemma_dot_bound(r: Seq<int>, x: Seq<int>, m: int, c: int)
    requires
        is_binary(x),
        0 <= m <= x.len(),
        c >= 0,
        forall|j: int| 0 <= j < m ==> -c <= #[trigger] r[j] && r[j] <= c,
    ensures
        -(m * c) <= dot(r, x, m) && dot(r, x, m) <= m * c,
    decreases m,
{
    if m > 0 {
        lemma_dot_bound(r, x, m - 1, c);
        let b = x[m - 1];
        let a = r[m - 1];
        assert(b == 0 || b == 1);
        assert(-c <= a && a <= c);
        assert(-c <= a * b && a * b <= c) by (nonlinear_arith)
            requires
                b == 0 || b == 1,
                -c <= a && a <= c,
        ;
        assert((m - 1) * c + c == m * c) by (nonlinear_arith);
        assert(dot(r, x, m) == dot(r, x, m - 1) + a * b);
    }
}

proof fn lemma_energy_upto_bound(s: Seq<Seq<int>>, x: Seq<int>, m: int, c: int)
    requires
        is_square(s, x.len() as int),
        is_bounded(s, x.len() as int, c),
        is_binary(x),
        0 <= m <= x.len(),
        c >= 0,
    ensures
        -(m * (x.len() * c)) <= energy_upto(s, x, m) && energy_upto(s, x, m) <= m * (x.len()
            * c),
    decreases m,
{
    if m > 0 {
        let n = x.len() as int;
        lemma_energy_upto_bound(s, x, m - 1, c);
        let row = s[m - 1];
        assert forall|j: int| 0 <= j < n implies -c <= #[trigger] row[j] && row[j] <= c by {
            assert(-c <= s[m - 1][j] <= c);
        }
        lemma_dot_bound(row, x, n, c);
        let dd = dot(row, x, n);
        let b = x[m - 1];
        assert(b == 0 || b == 1);
        assert(-(n * c) <= b * dd && b * dd <= n * c) by (nonlinear_arith)
            requires
                b == 0 || b == 1,
                -(n * c) <= dd && dd <= n * c,
        ;
        assert((m - 1) * (n * c) + n * c == m * (n * c)) by (nonlinear_arith);
        assert(energy_upto(s, x, m) == energy_upto(s, x, m - 1) + b * dd);
    }
}

proof fn lemma_limit(a: int, n: int, c: int)
    requires
        0 <= a <= n <= MAX_SIZE,
        0 <= c <= MAX_COEFF,
    ensures
        0 <= a * (n * c) <= energy_limit(),
        0 <= n * c <= 1099511627776,
{
    assert(0 <= n * c <= 1048576 * 1048576) by (nonlinear_arith)
        requires
            0 <= n <= 1048576,
            0 <= c <= 1048576,
    ;
    assert(0 <= a * (n * c) <= 1048576 * (1048576 * 1048576)) by (nonlinear_arith)
        requires
            0 <= a <= 1048576,
            0 <= n * c <= 1048576 * 1048576,
    ;
}

/// Every energy of a matrix that a `QuboProblem` can hold lies within `energy_limit()`.
pub proof fn lemma_energy_bounds(s: Seq<Seq<int>>, x: Seq<int>)
    requires
        is_qubo_matrix(s),
        x.len() == s.len(),
        is_binary(x),
    ensures
        -energy_limit() <= energy(s, x) <= energy_limit(),
{
    let n = x.len() as int;
    lemma_energy_upto_bound(s, x, n, MAX_COEFF as int);
    lemma_limit(n, n, MAX_COEFF as int);
}

/// Every delta of a matrix that a `QuboProblem` can hold lies within twice `energy_limit()`.
pub proof fn lemma_delta_bounds(s: Seq<Seq<int>>, x: Seq<int>, k: int)
    requires
        is_qubo_matrix(s),
        x.len() == s.len(),
        is_binary(x),
        0 <= k < x.len(),
    ensures
        -2 * energy_limit() <= delta(s, x, k) <= 2 * energy_limit(),
{
    lemma_energy_bounds(s, x);
    assert(is_binary(flip(x, k)));
    lemma_energy_bounds(s, flip(x, k));
}

/// A bit vector, one entry of 0 or 1 per variable of a QUBO problem.
#[derive(Clone, Debug, PartialEq, Eq, Hash)]
pub struct QuboSolution(pub Vec<QuboType>);

impl View for QuboSolution {
    type V = Seq<int>;

    open spec fn view(&self) -> Seq<int> {
        ints(self.0@)
    }
}

impl QuboSolution {
    /// The all-zero vector of length `n`.
    pub fn zeros(n: usize) -> (r: QuboSolution)
        ensures
            r@ == Seq::new(n as nat, |i: int| 0int),
    {
        let mut v: Vec<QuboType> = Vec::new();
        let mut i: usize = 0;
        while i < n
            invariant
                i <= n,
                v@.len() == i,
                forall|j: int| 0 <= j < i ==> v@[j] == 0,
            decreases n - i,
        {
            v.push(0);
            i += 1;
        }
        let r = QuboSolution(v);
        assert(r@ =~= Seq::new(n as nat, |i: int| 0int));
        r
    }

    /// This vector with bit `i` flipped.
    pub fn flip(&self, i: usize) -> (r: QuboSolution)
        requires
            i < self@.len(),
            is_binary(self@),
        ensures
            r@ == flip(self@, i as int),
            is_binary(r@),
    {
        let mut v = self.0.clone();
        assert(v@ == self.0@);
        let b = v[i];
        assert(self@[i as int] == b as int);
        v.set(i, 1 - b);
        let r = QuboSolution(v);
        assert(r@ =~= flip(self@, i as int));
        r
    }

    /// The number of bits set to one.
    pub fn count_ones(&self) -> (r: usize)
        requires
            is_binary(self@),
        ensures
            r == popcount(self@, self@.len() as int),
    {
        let mut c: usize = 0;
        let mut i: usize = 0;
        while i < self.0.len()
            invariant
                i <= self@.len(),
                c == popcount(self@, i as int),
                c <= i,
                is_binary(self@),
            decreases self@.len() - i,
        {
            if self.0[i] != 0 {
                c += 1;
            }
            i += 1;
        }
        c
    }
}

/// The number of ones among the first `m` entries.
pub open spec fn popcount(x: Seq<int>, m: int) -> int
    decreases m,
{
    if m <= 0 {
        0
    } else {
        popcount(x, m - 1) + (if x[m - 1] != 0 {
            1int
        } else {
            0
        })
    }
}

/// The spin `2·x[k] − 1` of bit `k`.
pub fn sigma_of(solution: &QuboSolution, k: usize) -> (r: QuboType)
    requires
        k < solution@.len(),
        is_binary(solution@),
    ensures
        r == sigma(solution@[k as int]),
{
    let b = solution.0[k];
    assert(solution@[k as int] == b as int);
    2 * b - 1
}

/// `Σ` of the values of the first `m` entries of a sparse row that sit in column `j`.
pub open spec fn entry_sum(es: Seq<(usize, QuboType)>, j: int, m: int) -> int
    decreases m,
{
    if m <= 0 {
        0
    } else {
        entry_sum(es, j, m - 1) + (if es[m - 1].0 as int == j {
            es[m - 1].1 as int
        } else {
            0
        })
    }
}

/// The dense row of `n` columns that the first `m` entries of a sparse row describe.
pub open spec fn dense_of(es: Seq<(usize, QuboType)>, n: int, m: int) -> Seq<int> {
    Seq::new(n as nat, |j: int| entry_sum(es, j, m))
}

/// The matrix that sparse rows describe: row `i` is the dense form of its entries.
pub open spec fn sparse_view(rows: Seq<Vec<(usize, QuboType)>>) -> Seq<Seq<int>> {
    Seq::new(rows.len(), |i: int| dense_of(rows[i]@, rows.len() as int, rows[i]@.len() as int))
}

/// Every entry names a column below the number of rows and holds a value
/// within `MAX_COEFF`.
pub open spec fn rows_ok(rows: Seq<Vec<(usize, QuboType)>>) -> bool {
    forall|i: int, t: int|
        0 <= i < rows.len() && 0 <= t < rows[i]@.len() ==> (#[trigger] rows[i]@[t]).0 < rows.len()
            && -MAX_COEFF <= rows[i]@[t].1 <= MAX_COEFF
}

/// `Σ_{t < m} v_t·x[c_t]` over the entries `(c_t, v_t)` of a sparse row.
pub open spec fn entries_dot(es: Seq<(usize, QuboType)>, x: Seq<int>, m: int) -> int
    decreases m,
{
    if m <= 0 {
        0
    } else {
        entries_dot(es, x, m - 1) + es[m - 1].1 * x[es[m - 1].0 as int]
    }
}

proof fn lemma_dot_row_update(r: Seq<int>, x: Seq<int>, k: int, v: int, m: int)
    requires
        0 <= k < r.len(),
        m <= r.len(),
    ensures
        dot(r.update(k, r[k] + v), x, m) == dot(r, x, m) + (if 0 <= k < m {
            v * x[k]
        } else {
            0
        }),
    decreases m,
{
    if m > 0 {
        lemma_dot_row_update(r, x, k, v, m - 1);
        if m - 1 == k {
            assert((r[k] + v) * x[k] == r[k] * x[k] + v * x[k]) by (nonlinear_arith);
        }
    }
}

/// Summing over the entries of a sparse row is the dot product of its dense form.
pub proof fn lemma_entries_dot(es: Seq<(usize, QuboType)>, x: Seq<int>, n: int, m: int)
    requires
        0 <= m <= es.len(),
        0 <= n,
        forall|t: int| 0 <= t < es.len() ==> (#[trigger] es[t]).0 < n,
    ensures
        entries_dot(es, x, m) == dot(dense_of(es, n, m), x, n),
    decreases m,
{
    if m == 0 {
        lemma_dot_zero(dense_of(es, n, 0), x, n);
    } else {
        lemma_entries_dot(es, x, n, m - 1);
        let prev = dense_of(es, n, m - 1);
        let c = es[m - 1].0 as int;
        let v = es[m - 1].1 as int;
        assert(c < n);
        assert(dense_of(es, n, m) =~= prev.update(c, prev[c] + v));
        lemma_dot_row_update(prev, x, c, v, n);
    }
}

proof fn lemma_entry_sum_prefix(es: Seq<(usize, QuboType)>, e: (usize, QuboType), c: int)
    ensures
        entry_sum(es.push(e), c, es.len() as int + 1) == entry_sum(es, c, es.len() as int) + (if e.0 as int
            == c {
            e.1 as int
        } else {
            0
        }),
{
    lemma_entry_sum_same(es, es.push(e), c, es.len() as int);
}

proof fn lemma_entry_sum_same(a: Seq<(usize, QuboType)>, b: Seq<(usize, QuboType)>, c: int, m: int)
    requires
        0 <= m <= a.len(),
        m <= b.len(),
        forall|t: int| 0 <= t < m ==> #[trigger] a[t] == b[t],
    ensures
        entry_sum(a, c, m) == entry_sum(b, c, m),
    decreases m,
{
    if m > 0 {
        lemma_entry_sum_same(a, b, c, m - 1);
    }
}

proof fn lemma_dot_zero(r: Seq<int>, x: Seq<int>, m: int)
    requires
        forall|j: int| 0 <= j < m ==> #[trigger] r[j] == 0,
    ensures
        dot(r, x, m) == 0,
    decreases m,
{
    if m > 0 {
        lemma_dot_zero(r, x, m - 1);
    }
}

/// A QUBO problem: a symmetric square matrix `S`, minimized as `xᵀ·S·x`. Each
/// row is stored sparsely as its nonzero `(column, value)` entries.
pub struct QuboProblem {
    rows: Vec<Vec<(usize, QuboType)>>,
}

impl View for QuboProblem {
    type V = Seq<Seq<int>>;

    closed spec fn view(&self) -> Seq<Seq<int>> {
        sparse_view(self.rows@)
    }
}

impl QuboProblem {
    /// The stored entries name columns of the matrix and hold bounded values.
    pub closed spec fn entries_ok(&self) -> bool {
        rows_ok(self.rows@)
    }

    /// The matrix is square, symmetric and within the supported bounds, and
    /// its sparse rows are well formed.
    pub open spec fn wf(&self) -> bool {
        is_qubo_matrix(self@) && self.entries_ok()
    }

    /// Builds a problem from a dense matrix, keeping the nonzero entries of each row.
    fn from_rows(matrix: Vec<Vec<QuboType>>) -> (r: QuboProblem)
        requires
            is_square(rows_view(matrix@), matrix@.len() as int),
            is_bounded(rows_view(matrix@), matrix@.len() as int, MAX_COEFF as int),
        ensures
            r@ == rows_view(matrix@),
            r.entries_ok(),
    {
        let n = matrix.len();
        let ghost mv = rows_view(matrix@);
        let mut rows: Vec<Vec<(usize, QuboType)>> = Vec::new();
        let mut i: usize = 0;
        while i < n
            invariant
                n == matrix@.len(),
                mv == rows_view(matrix@),
                is_square(mv, n as int),
                is_bounded(mv, n as int, MAX_COEFF as int),
                i <= n,
                rows@.len() == i,
                forall|a: int| 0 <= a < i ==> #[trigger] dense_of(rows@[a]@, n as int, rows@[a]@.len() as int) == mv[a],
                forall|a: int, t: int|
                    0 <= a < i && 0 <= t < rows@[a]@.len() ==> (#[trigger] rows@[a]@[t]).0 < n
                        && -MAX_COEFF <= rows@[a]@[t].1 <= MAX_COEFF,
            decreases n - i,
        {
            proof {
                lemma_rows_view(matrix@, i as int);
            }
            let row = &matrix[i];
            let mut es: Vec<(usize, QuboType)> = Vec::new();
            let mut j: usize = 0;
            while j < n
                invariant
                    n == matrix@.len(),
                    mv == rows_view(matrix@),
                    is_bounded(mv, n as int, MAX_COEFF as int),
                    i < n,
                    row@.len() == n,
                    ints(row@) == mv[i as int],
                    j <= n,
                    dense_of(es@, n as int, es@.len() as int) == Seq::new(
                        n as nat,
                        |c: int| if c < j { mv[i as int][c] } else { 0 },
                    ),
                    forall|t: int| 0 <= t < es@.len() ==> (#[trigger] es@[t]).0 < j && -MAX_COEFF
                        <= es@[t].1 <= MAX_COEFF,
                decreases n - j,
            {
                let v = row[j];
                assert(mv[i as int][j as int] == v as int);
                let ghost before = es@;
                if v != 0 {
                    es.push((j, v));
                    assert(dense_of(es@, n as int, es@.len() as int) =~= Seq::new(
                        n as nat,
                        |c: int| if c < j + 1 { mv[i as int][c] } else { 0 },
                    )) by {
                        assert forall|c: int| 0 <= c < n implies entry_sum(es@, c, es@.len() as int)
                            == (if c < j + 1 { mv[i as int][c] } else { 0 }) by {
                            assert(dense_of(before, n as int, before.len() as int)[c] == entry_sum(
                                before,
                                c,
                                before.len() as int,
                            ));
                            lemma_entry_sum_prefix(before, (j, v), c);
                        }
                    }
                } else {
                    assert(dense_of(es@, n as int, es@.len() as int) =~= Seq::new(
                        n as nat,
                        |c: int| if c < j + 1 { mv[i as int][c] } else { 0 },
                    ));
                }
                j += 1;
            }
            assert(dense_of(es@, n as int, es@.len() as int) =~= mv[i as int]);
            rows.push(es);
            i += 1;
        }
        let r = QuboProblem { rows };
        assert(r@ =~= mv);
        r
    }

    /// The dimension `n` of the matrix.
    pub fn get_size(&self) -> (r: usize)
        ensures
            r == self@.len(),
    {
        self.rows.len()
    }

    /// The stored coefficient `S[i][j]`, found among the entries of row `i`.
    pub fn get_entry(&self, i: usize, j: usize) -> (r: QuboType)
        requires
            self.wf(),
            i < self@.len(),
            j < self@.len(),
        ensures
            r == self@[i as int][j as int],
    {
        let es = &self.rows[i];
        let mut acc: i128 = 0;
        let mut t: usize = 0;
        while t < es.len()
            invariant
                self.wf(),
                i < self.rows@.len(),
                es == &self.rows@[i as int],
                t <= es@.len(),
                acc == entry_sum(es@, j as int, t as int),
                -(t * MAX_COEFF) <= acc <= t * MAX_COEFF,
            decreases es@.len() - t,
        {
            let (c, v) = es[t];
            assert(-MAX_COEFF <= self.rows@[i as int]@[t as int].1 <= MAX_COEFF);
            proof {
                assert(t * MAX_COEFF + MAX_COEFF == (t + 1) * MAX_COEFF) by (nonlinear_arith);
                assert((t + 1) * MAX_COEFF <= 18446744073709551616 * 1048576) by (nonlinear_arith)
                    requires
                        t + 1 <= 18446744073709551616,
                ;
            }
            if c == j {
                acc = acc + v as i128;
            }
            t += 1;
        }
        assert(self@[i as int][j as int] == acc);
        assert(-MAX_COEFF <= self@[i as int][j as int] <= MAX_COEFF);
        acc as i64
    }

    /// Row `i` of the matrix in dense form.
    fn dense_row(&self, i: usize) -> (r: Vec<QuboType>)
        requires
            self.wf(),
            i < self@.len(),
        ensures
            ints(r@) == self@[i as int],
            r@.len() == self@.len(),
    {
        let n = self.rows.len();
        let mut r: Vec<QuboType> = Vec::new();
        let mut j: usize = 0;
        while j < n
            invariant
                self.wf(),
                n == self@.len(),
                i < n,
                j <= n,
                r@.len() == j,
                forall|c: int| 0 <= c < j ==> #[trigger] r@[c] as int == self@[i as int][c],
            decreases n - j,
        {
            let v = self.get_entry(i, j);
            r.push(v);
            j += 1;
        }
        assert(ints(r@) =~= self@[i as int]);
        r
    }

    /// `Σ_{j < n} S[i][j]·x[j]`, summed over the nonzero entries of row `i`.
    fn row_dot(&self, i: usize, solution: &QuboSolution) -> (r: QuboType)
        requires
            self.wf(),
            i < self@.len(),
            solution@.len() == self@.len(),
            is_binary(solution@),
        ensures
            r == dot(self@[i as int], solution@, self@.len() as int),
            -(self@.len() * MAX_COEFF) <= r <= self@.len() * MAX_COEFF,
    {
        let n = self.rows.len();
        let es = &self.rows[i];
        let ghost x = solution@;
        let mut acc: i128 = 0;
        let mut t: usize = 0;
        while t < es.len()
            invariant
                self.wf(),
                n == self.rows@.len(),
                i < n,
                es == &self.rows@[i as int],
                x == solution@,
                x.len() == n,
                is_binary(x),
                t <= es@.len(),
                acc == entries_dot(es@, x, t as int),
                -(t * MAX_COEFF) <= acc <= t * MAX_COEFF,
            decreases es@.len() - t,
        {
            let (c, v) = es[t];
            assert(c < n && -MAX_COEFF <= v <= MAX_COEFF);
            assert(x[c as int] == solution.0@[c as int] as int);
            assert(x[c as int] == 0 || x[c as int] == 1);
            proof {
                assert(t * MAX_COEFF + MAX_COEFF == (t + 1) * MAX_COEFF) by (nonlinear_arith);
                assert((t + 1) * MAX_COEFF <= 18446744073709551616 * 1048576) by (nonlinear_arith)
                    requires
                        t + 1 <= 18446744073709551616,
                ;
                assert(-MAX_COEFF <= v * x[c as int] <= MAX_COEFF) by (nonlinear_arith)
                    requires
                        -MAX_COEFF <= v <= MAX_COEFF,
                        x[c as int] == 0 || x[c as int] == 1,
                ;
            }
            if solution.0[c] != 0 {
                acc = acc + v as i128;
            } else {
                assert(v * x[c as int] == 0);
            }
            t += 1;
        }
        proof {
            let s = self@;
            assert forall|k: int| 0 <= k < es@.len() implies (#[trigger] es@[k]).0 < n by {
                assert(self.rows@[i as int]@[k].0 < n);
            }
            lemma_entries_dot(es@, x, n as int, es@.len() as int);
            assert(s[i as int] == dense_of(es@, n as int, es@.len() as int));
            assert forall|j: int| 0 <= j < n implies -MAX_COEFF <= #[trigger] s[i as int][j] <= MAX_COEFF by {}
            lemma_dot_bound(s[i as int], x, n as int, MAX_COEFF as int);
        }
        acc as i64
    }

    /// The energy `xᵀ·S·x` of a bit vector.
    pub fn evaluate(&self, solution: &QuboSolution) -> (r: QuboType)
        requires
            self.wf(),
            solution@.len() == self@.len(),
            is_binary(solution@),
        ensures
            r == energy(self@, solution@),
    {
        let n = self.rows.len();
        let ghost s = self@;
        let ghost x = solution@;
        let mut acc: QuboType = 0;
        let mut i: usize = 0;
        while i < n
            invariant
                self.wf(),
                n == s.len(),
                s == self@,
                x == solution@,
                x.len() == n,
                is_binary(x),
                is_qubo_matrix(s),
                i <= n,
                acc == energy_upto(s, x, i as int),
            decreases n - i,
        {
            let rs = self.row_dot(i, solution);
            proof {
                lemma_energy_upto_bound(s, x, i as int + 1, MAX_COEFF as int);
                lemma_limit(i as int + 1, n as int, MAX_COEFF as int);
                assert(x[i as int] == 0 || x[i as int] == 1);
            }
            assert(energy_upto(s, x, i as int + 1) == acc + x[i as int] * rs);
            assert(x[i as int] == solution.0@[i as int] as int);
            if solution.0[i] != 0 {
                assert(x[i as int] == 1);
                assert(x[i as int] * rs == rs);
                acc = acc + rs;
            } else {
                assert(x[i as int] * rs == 0);
            }
            i += 1;
        }
        acc
    }

    /// The change of energy caused by flipping bit `k`:
    /// `−2·σ(x[k])·Σ_j S[k][j]·x[j] + S[k][k]`, which is `E(flip(x, k)) − E(x)`.
    pub fn delta_evaluate_k(&self, solution: &QuboSolution, k: usize) -> (r: QuboType)
        requires
            self.wf(),
            solution@.len() == self@.len(),
            is_binary(solution@),
            k < self@.len(),
        ensures
            r == delta(self@, solution@, k as int),
            r == energy(self@, flip(solution@, k as int)) - energy(self@, solution@),
    {
        let row_sum = self.row_dot(k, solution);
        let sigma_k = sigma_of(solution, k);
        let w_kk = self.get_entry(k, k);
        proof {
            lemma_delta_formula(self@, solution@, k as int);
            lemma_limit(1, self@.len() as int, MAX_COEFF as int);
            assert(-2 * row_sum * sigma_k == -2 * sigma_k * row_sum) by (nonlinear_arith);
            assert(sigma_k == 1 || sigma_k == -1);
            assert(-2 * row_sum * sigma_k == 2 * row_sum || -2 * row_sum * sigma_k == -2
                * row_sum) by (nonlinear_arith)
                requires
                    sigma_k == 1 || sigma_k == -1,
            ;
        }
        -2 * row_sum * sigma_k + w_kk
    }

    /// Given `delta_k = E(flip(x, k)) − E(x)`, the delta of bit `k` once bit `j`
    /// has been flipped: `E(flip(flip(x, j), k)) − E(flip(x, j))`.
    pub fn flip_j_and_delta_evaluate_k(
        &self,
        solution: &QuboSolution,
        delta_k: QuboType,
        j: usize,
        k: usize,
    ) -> (r: QuboType)
        requires
            self.wf(),
            solution@.len() == self@.len(),
            is_binary(solution@),
            j < self@.len(),
            k < self@.len(),
            delta_k == delta(self@, solution@, k as int),
        ensures
            r == delta(self@, flip(solution@, j as int), k as int),
            r == energy(self@, flip(flip(solution@, j as int), k as int)) - energy(
                self@,
                flip(solution@, j as int),
            ),
    {
        proof {
            lemma_delta_after_flip(self@, solution@, j as int, k as int);
            lemma_delta_bounds(self@, solution@, k as int);
            assert(is_binary(flip(solution@, j as int)));
            lemma_delta_bounds(self@, flip(solution@, j as int), k as int);
        }
        if j == k {
            return -delta_k;
        }
        let w_jk = self.get_entry(j, k);
        let s_j = sigma_of(solution, j);
        let s_k = sigma_of(solution, k);
        proof {
            assert(s_j == 1 || s_j == -1);
            assert(s_k == 1 || s_k == -1);
            assert(-2 * MAX_COEFF <= 2 * w_jk * s_j && 2 * w_jk * s_j <= 2 * MAX_COEFF)
                by (nonlinear_arith)
                requires
                    s_j == 1 || s_j == -1,
                    -MAX_COEFF <= w_jk <= MAX_COEFF,
            ;
            assert(-2 * MAX_COEFF <= 2 * w_jk * s_j * s_k && 2 * w_jk * s_j * s_k <= 2
                * MAX_COEFF) by (nonlinear_arith)
                requires
                    s_k == 1 || s_k == -1,
                    -2 * MAX_COEFF <= 2 * w_jk * s_j <= 2 * MAX_COEFF,
            ;
        }
        delta_k + 2 * w_jk * s_j * s_k
    }
}

/// Why a matrix could not become a `QuboProblem`.
#[derive(Clone, Copy, Debug, PartialEq, Eq, Structural)]
pub enum QuboError {
    /// A triplet names a row or column outside the matrix.
    InvalidTriplets,
    /// The matrix is not square.
    IncorrectSize,
    /// The dimension, a coefficient or the number of triplets exceeds the supported bounds.
    TooLarge,
}

/// Largest supported number of triplets handed to one constructor.
pub const MAX_TRIPLETS: usize = 4294967295;

/// `Σ` of the values of the triplets among the first `m` that sit at `(i, j)`.
pub open spec fn triplet_sum(ts: Seq<(usize, usize, i64)>, i: int, j: int, m: int) -> int
    decreases m,
{
    if m <= 0 {
        0
    } else {
        triplet_sum(ts, i, j, m - 1) + (if ts[m - 1].0 as int == i && ts[m - 1].1 as int == j {
            ts[m - 1].2 as int
        } else {
            0
        })
    }
}

/// The `n × n` matrix `U` with `U[i][j]` the sum of the triplets at `(i, j)`.
pub open spec fn triplets_upper(n: int, ts: Seq<(usize, usize, i64)>) -> Seq<Seq<int>> {
    Seq::new(n as nat, |i: int| Seq::new(n as nat, |j: int| triplet_sum(ts, i, j, ts.len() as int)))
}

/// `U + Uᵀ − diag(U)`.
pub open spec fn symmetrize(u: Seq<Seq<int>>, n: int) -> Seq<Seq<int>> {
    Seq::new(
        n as nat,
        |i: int|
            Seq::new(
                n as nat,
                |j: int|
                    if i == j {
                        u[i][i]
                    } else {
                        u[i][j] + u[j][i]
                    },
            ),
    )
}

/// Every triplet names a row and a column below `n`.
pub open spec fn triplets_in_range(n: int, ts: Seq<(usize, usize, i64)>) -> bool {
    forall|t: int| 0 <= t < ts.len() ==> (#[trigger] ts[t]).0 < n && ts[t].1 < n
}

/// Every triplet value lies in `[−MAX_COEFF, MAX_COEFF]`.
pub open spec fn triplets_small(ts: Seq<(usize, usize, i64)>) -> bool {
    forall|t: int| 0 <= t < ts.len() ==> -MAX_COEFF <= (#[trigger] ts[t]).2 <= MAX_COEFF
}

/// What building an `n × n` problem from triplets gives: the symmetrized sum
/// of the triplets, or the error for the first condition that fails.
pub open spec fn triplets_outcome(n: int, ts: Seq<(usize, usize, i64)>) -> Result<
    Seq<Seq<int>>,
    QuboError,
> {
    if n > MAX_SIZE {
        Err(QuboError::TooLarge)
    } else if !triplets_in_range(n, ts) {
        Err(QuboError::InvalidTriplets)
    } else if ts.len() > MAX_TRIPLETS || !triplets_small(ts) || !is_bounded(
        symmetrize(triplets_upper(n, ts), n),
        n,
        MAX_COEFF as int,
    ) {
        Err(QuboError::TooLarge)
    } else {
        Ok(symmetrize(triplets_upper(n, ts), n))
    }
}

/// What building a problem from a dense matrix `q` gives.
pub open spec fn matrix_outcome(q: Seq<Seq<int>>) -> Result<Seq<Seq<int>>, QuboError> {
    if !is_square(q, q.len() as int) {
        Err(QuboError::IncorrectSize)
    } else if q.len() > MAX_SIZE || !is_bounded(q, q.len() as int, MAX_COEFF as int)
        || !is_bounded(symmetrize(q, q.len() as int), q.len() as int, MAX_COEFF as int) {
        Err(QuboError::TooLarge)
    } else {
        Ok(symmetrize(q, q.len() as int))
    }
}

proof fn lemma_symmetrize(u: Seq<Seq<int>>, n: int)
    requires
        n >= 0,
    ensures
        is_symmetric(symmetrize(u, n), n),
{
}

proof fn lemma_triplet_sum_bound(ts: Seq<(usize, usize, i64)>, i: int, j: int, m: int)
    requires
        triplets_small(ts),
        0 <= m <= ts.len(),
    ensures
        -(m * MAX_COEFF) <= triplet_sum(ts, i, j, m) <= m * MAX_COEFF,
    decreases m,
{
    if m > 0 {
        lemma_triplet_sum_bound(ts, i, j, m - 1);
        assert(-MAX_COEFF <= ts[m - 1].2 <= MAX_COEFF);
        assert((m - 1) * MAX_COEFF + MAX_COEFF == m * MAX_COEFF) by (nonlinear_arith);
    }
}

/// An `n × n` matrix of zeros.
fn zero_matrix(n: usize) -> (r: Vec<Vec<QuboType>>)
    ensures
        r@.len() == n,
        forall|i: int| 0 <= i < n ==> (#[trigger] r@[i])@.len() == n,
        forall|i: int, j: int| 0 <= i < n && 0 <= j < n ==> (#[trigger] r@[i]@[j]) == 0,
{
    let mut r: Vec<Vec<QuboType>> = Vec::new();
    let mut i: usize = 0;
    while i < n
        invariant
            i <= n,
            r@.len() == i,
            forall|a: int| 0 <= a < i ==> (#[trigger] r@[a])@.len() == n,
            forall|a: int, b: int| 0 <= a < i && 0 <= b < n ==> (#[trigger] r@[a]@[b]) == 0,
        decreases n - i,
    {
        let mut row: Vec<QuboType> = Vec::new();
        let mut j: usize = 0;
        while j < n
            invariant
                j <= n,
                row@.len() == j,
                forall|b: int| 0 <= b < j ==> (#[trigger] row@[b]) == 0,
            decreases n - j,
        {
            row.push(0);
            j += 1;
        }
        r.push(row);
        i += 1;
    }
    r
}

/// `U + Uᵀ − diag(U)`, or `None` when an entry leaves `[−MAX_COEFF, MAX_COEFF]`.
fn symmetrize_checked(u: &Vec<Vec<QuboType>>) -> (r: Option<Vec<Vec<QuboType>>>)
    requires
        is_square(rows_view(u@), u@.len() as int),
        is_bounded(
            rows_view(u@),
            u@.len() as int,
            energy_limit(),
        ),
    ensures
        ({
            let su = symmetrize(rows_view(u@), u@.len() as int);
            match r {
                Some(m) => is_bounded(su, u@.len() as int, MAX_COEFF as int) && rows_view(m@) == su,
                None => !is_bounded(su, u@.len() as int, MAX_COEFF as int),
            }
        }),
{
    let n = u.len();
    let ghost uv = rows_view(u@);
    let ghost su = symmetrize(uv, n as int);
    let mut out: Vec<Vec<QuboType>> = Vec::new();
    let mut i: usize = 0;
    while i < n
        invariant
            n == u@.len(),
            uv == rows_view(u@),
            su == symmetrize(uv, n as int),
            is_square(uv, n as int),
            is_bounded(uv, n as int, energy_limit()),
            i <= n,
            out@.len() == i,
            forall|a: int| 0 <= a < i ==> ints((#[trigger] out@[a])@) == su[a],
            forall|a: int, b: int|
                0 <= a < i && 0 <= b < n ==> -MAX_COEFF <= #[trigger] su[a][b] <= MAX_COEFF,
        decreases n - i,
    {
        let mut row: Vec<QuboType> = Vec::new();
        let mut j: usize = 0;
        proof {
            lemma_rows_view(u@, i as int);
        }
        assert(uv[i as int].len() == n);
        while j < n
            invariant
                n == u@.len(),
                uv == rows_view(u@),
                su == symmetrize(uv, n as int),
                is_square(uv, n as int),
                is_bounded(uv, n as int, energy_limit()),
                i < n,
                j <= n,
                row@.len() == j,
                forall|b: int| 0 <= b < j ==> (#[trigger] row@[b]) as int == su[i as int][b],
                forall|b: int| 0 <= b < j ==> -MAX_COEFF <= #[trigger] su[i as int][b] <= MAX_COEFF,
            decreases n - j,
        {
            proof {
                lemma_rows_view(u@, i as int);
                lemma_rows_view(u@, j as int);
            }
            assert(uv[j as int].len() == n);
            assert(uv[i as int][j as int] == u@[i as int]@[j as int] as int);
            assert(uv[j as int][i as int] == u@[j as int]@[i as int] as int);
            assert(-energy_limit() <= uv[i as int][j as int] <= energy_limit());
            assert(-energy_limit() <= uv[j as int][i as int] <= energy_limit());
            let v = if i == j {
                u[i][i]
            } else {
                u[i][j] + u[j][i]
            };
            assert(su[i as int][j as int] == v as int);
            if v < -MAX_COEFF || v > MAX_COEFF {
                return None;
            }
            row.push(v);
            j += 1;
        }
        assert(ints(row@) =~= su[i as int]);
        out.push(row);
        i += 1;
    }
    assert forall|a: int| 0 <= a < n implies #[trigger] rows_view(out@)[a] == su[a] by {
        lemma_rows_view(out@, a);
    }
    assert(rows_view(out@) =~= su);
    Some(out)
}

impl QuboProblem {
    /// Builds the problem `S = U + Uᵀ − diag(U)` from an `n × n` matrix `U`,
    /// usually upper-triangular, given by rows.
    pub fn try_from_q_matrix(q_matrix: Vec<Vec<QuboType>>) -> (r: Result<QuboProblem, QuboError>)
        ensures
            match r {
                Ok(p) => p.wf() && matrix_outcome(
                    rows_view(q_matrix@),
                ) == Ok::<Seq<Seq<int>>, QuboError>(p@),
                Err(e) => matrix_outcome(rows_view(q_matrix@))
                    == Err::<Seq<Seq<int>>, QuboError>(e),
            },
    {
        let n = q_matrix.len();
        let ghost qv = rows_view(q_matrix@);
        let mut i: usize = 0;
        while i < n
            invariant
                n == q_matrix@.len(),
                qv == rows_view(q_matrix@),
                i <= n,
                forall|a: int| 0 <= a < i ==> (#[trigger] qv[a]).len() == n,
            decreases n - i,
        {
            proof {
                lemma_rows_view(q_matrix@, i as int);
            }
            if q_matrix[i].len() != n {
                return Err(QuboError::IncorrectSize);
            }
            i += 1;
        }
        if n > MAX_SIZE {
            return Err(QuboError::TooLarge);
        }
        let mut i: usize = 0;
        while i < n
            invariant
                n == q_matrix@.len(),
                qv == rows_view(q_matrix@),
                is_square(qv, n as int),
                i <= n,
                forall|a: int, b: int|
                    0 <= a < i && 0 <= b < n ==> -MAX_COEFF <= #[trigger] qv[a][b] <= MAX_COEFF,
            decreases n - i,
        {
            let mut j: usize = 0;
            assert(qv[i as int].len() == n);
            while j < n
                invariant
                    n == q_matrix@.len(),
                    qv == rows_view(q_matrix@),
                    is_square(qv, n as int),
                    i < n,
                    j <= n,
                    forall|a: int, b: int|
                        0 <= a < i && 0 <= b < n ==> -MAX_COEFF <= #[trigger] qv[a][b]
                            <= MAX_COEFF,
                    forall|b: int| 0 <= b < j ==> -MAX_COEFF <= #[trigger] qv[i as int][b] <= MAX_COEFF,
                decreases n - j,
            {
                proof {
                    lemma_rows_view(q_matrix@, i as int);
                }
                let v = q_matrix[i][j];
                assert(qv[i as int][j as int] == v as int);
                if v < -MAX_COEFF || v > MAX_COEFF {
                    return Err(QuboError::TooLarge);
                }
                j += 1;
            }
            i += 1;
        }
        proof {
            lemma_symmetrize(qv, n as int);
        }
        match symmetrize_checked(&q_matrix) {
            Some(m) => {
                let p = QuboProblem::from_rows(m);
                Ok(p)
            },
            None => Err(QuboError::TooLarge),
        }
    }

    /// Builds an `n × n` problem from `(row, column, value)` triplets: values at
    /// the same position add up to `U`, and the problem is `S = U + Uᵀ − diag(U)`.
    pub fn try_from_triplets(problem_size: usize, triplets: Vec<(usize, usize, QuboType)>) -> (r:
        Result<QuboProblem, QuboError>)
        ensures
            match r {
                Ok(p) => p.wf() && triplets_outcome(problem_size as int, triplets@) == Ok::<
                    Seq<Seq<int>>,
                    QuboError,
                >(p@),
                Err(e) => triplets_outcome(problem_size as int, triplets@) == Err::<
                    Seq<Seq<int>>,
                    QuboError,
                >(e),
            },
    {
        let n = problem_size;
        if n > MAX_SIZE {
            return Err(QuboError::TooLarge);
        }
        let ghost ts = triplets@;
        let mut t: usize = 0;
        while t < triplets.len()
            invariant
                ts == triplets@,
                n == problem_size,
                n <= MAX_SIZE,
                t <= ts.len(),
                forall|a: int| 0 <= a < t ==> (#[trigger] ts[a]).0 < n && ts[a].1 < n,
            decreases ts.len() - t,
        {
            let (a, b, _) = triplets[t];
            assert(ts[t as int].0 == a && ts[t as int].1 == b);
            if a >= n || b >= n {
                assert(!triplets_in_range(n as int, ts));
                return Err(QuboError::InvalidTriplets);
            }
            t += 1;
        }
        if triplets.len() > MAX_TRIPLETS {
            return Err(QuboError::TooLarge);
        }
        let mut t: usize = 0;
        while t < triplets.len()
            invariant
                ts == triplets@,
                n == problem_size,
                n <= MAX_SIZE,
                ts.len() <= MAX_TRIPLETS,
                triplets_in_range(n as int, ts),
                t <= ts.len(),
                forall|a: int| 0 <= a < t ==> -MAX_COEFF <= (#[trigger] ts[a]).2 <= MAX_COEFF,
            decreases ts.len() - t,
        {
            let (_, _, v) = triplets[t];
            assert(ts[t as int].2 == v);
            if v < -MAX_COEFF || v > MAX_COEFF {
                assert(!triplets_small(ts));
                return Err(QuboError::TooLarge);
            }
            t += 1;
        }
        let mut u = zero_matrix(n);
        let mut t: usize = 0;
        while t < triplets.len()
            invariant
                ts == triplets@,
                n == problem_size,
                n <= MAX_SIZE,
                ts.len() <= MAX_TRIPLETS,
                triplets_in_range(n as int, ts),
                triplets_small(ts),
                t <= ts.len(),
                u@.len() == n,
                forall|a: int| 0 <= a < n ==> (#[trigger] u@[a])@.len() == n,
                forall|a: int, b: int|
                    0 <= a < n && 0 <= b < n ==> (#[trigger] u@[a]@[b]) as int == triplet_sum(
                        ts,
                        a,
                        b,
                        t as int,
                    ),
            decreases ts.len() - t,
        {
            let (a, b, v) = triplets[t];
            assert(ts[t as int].0 < n && ts[t as int].1 < n);
            proof {
                lemma_triplet_sum_bound(ts, a as int, b as int, t as int);
                assert(t * MAX_COEFF <= MAX_TRIPLETS * MAX_COEFF) by (nonlinear_arith)
                    requires
                        t <= MAX_TRIPLETS,
                ;
            }
            let mut row = u[a].clone();
            assert(row@ == u@[a as int]@);
            let old_v = row[b];
            row.set(b, old_v + v);
            u.set(a, row);
            t += 1;
        }
        let ghost uv = rows_view(u@);
        proof {
            assert forall|a: int, b: int| 0 <= a < n && 0 <= b < n implies -energy_limit() <= #[trigger] uv[a][b] <= energy_limit() by {
                lemma_rows_view(u@, a);
                lemma_triplet_sum_bound(ts, a, b, ts.len() as int);
                assert(ts.len() * MAX_COEFF <= MAX_TRIPLETS * MAX_COEFF) by (nonlinear_arith)
                    requires
                        ts.len() <= MAX_TRIPLETS,
                ;
            }
            assert forall|a: int| 0 <= a < n implies #[trigger] uv[a] =~= triplets_upper(n as int, ts)[a] by {
                lemma_rows_view(u@, a);
            }
            assert(uv =~= triplets_upper(n as int, ts));
        }
        proof {
            lemma_symmetrize(uv, n as int);
            assert(triplets_in_range(n as int, ts));
            assert(triplets_small(ts));
            assert(uv == triplets_upper(n as int, ts));
            assert(u@.len() == n);
        }
        match symmetrize_checked(&u) {
            Some(m) => Ok(QuboProblem::from_rows(m)),
            None => Err(QuboError::TooLarge),
        }
    }
}

/// The bias triplets `(i, i, 2·h)` of the first `m` Ising biases `(i, h)`.
pub open spec fn ising_bias_triplets(hs: Seq<(usize, i64)>, m: int) -> Seq<(usize, usize, i64)>
    decreases m,
{
    if m <= 0 {
        Seq::empty()
    } else {
        ising_bias_triplets(hs, m - 1).push((hs[m - 1].0, hs[m - 1].0, (2 * hs[m - 1].1) as i64))
    }
}

/// The triplets `(i, j, 2·J)`, `(i, i, −2·J)`, `(j, j, −2·J)` of the first `m`
/// Ising couplings `(i, j, J)`. Stored symmetrically, `(i, j, 2·J)` counts
/// `4·J·xᵢ·xⱼ` in the energy, which is `J·σᵢ·σⱼ` up to the diagonal terms and a
/// constant. A zero coupling, or one of a spin with itself (a constant), gives none.
pub open spec fn ising_coupling_triplets(js: Seq<(usize, usize, i64)>, m: int) -> Seq<
    (usize, usize, i64),
>
    decreases m,
{
    if m <= 0 {
        Seq::empty()
    } else {
        let t = js[m - 1];
        if t.2 == 0 || t.0 == t.1 {
            ising_coupling_triplets(js, m - 1)
        } else {
            ising_coupling_triplets(js, m - 1).push((t.0, t.1, (2 * t.2) as i64)).push(
                (t.0, t.0, (-2 * t.2) as i64),
            ).push((t.1, t.1, (-2 * t.2) as i64))
        }
    }
}

/// The QUBO triplets of an Ising model with couplings `js` and biases `hs`.
pub open spec fn ising_triplets(js: Seq<(usize, usize, i64)>, hs: Seq<(usize, i64)>) -> Seq<
    (usize, usize, i64),
> {
    ising_bias_triplets(hs, hs.len() as int) + ising_coupling_triplets(js, js.len() as int)
}

/// `Σ` of the first `m` couplings.
pub open spec fn coupling_sum(js: Seq<(usize, usize, i64)>, m: int) -> int
    decreases m,
{
    if m <= 0 {
        0
    } else {
        coupling_sum(js, m - 1) + js[m - 1].2
    }
}

/// `Σ` of the first `m` biases.
pub open spec fn bias_sum(hs: Seq<(usize, i64)>, m: int) -> int
    decreases m,
{
    if m <= 0 {
        0
    } else {
        bias_sum(hs, m - 1) + hs[m - 1].1
    }
}

/// The energy offset `Σ J − Σ h` of an Ising model.
pub open spec fn ising_offset(js: Seq<(usize, usize, i64)>, hs: Seq<(usize, i64)>) -> int {
    coupling_sum(js, js.len() as int) - bias_sum(hs, hs.len() as int)
}

/// Every bias and coupling lies in `[−MAX_COEFF, MAX_COEFF]`, and the model
/// gives at most `MAX_TRIPLETS` triplets.
pub open spec fn ising_small(js: Seq<(usize, usize, i64)>, hs: Seq<(usize, i64)>) -> bool {
    &&& hs.len() + 3 * js.len() <= MAX_TRIPLETS
    &&& forall|t: int| 0 <= t < hs.len() ==> -MAX_COEFF <= (#[trigger] hs[t]).1 <= MAX_COEFF
    &&& forall|t: int| 0 <= t < js.len() ==> -MAX_COEFF <= (#[trigger] js[t]).2 <= MAX_COEFF
}

proof fn lemma_coupling_triplets_len(js: Seq<(usize, usize, i64)>, m: int)
    requires
        0 <= m,
    ensures
        ising_coupling_triplets(js, m).len() <= 3 * m,
    decreases m,
{
    if m > 0 {
        lemma_coupling_triplets_len(js, m - 1);
    }
}

/// `2·r[i] + Σ_{j < m, j ≠ i} r[j]`'s sum part: `Σ_{j < m, j ≠ i} r[j]`.
pub open spec fn off_diagonal_sum(r: Seq<int>, i: int, m: int) -> int
    decreases m,
{
    if m <= 0 {
        0
    } else {
        off_diagonal_sum(r, i, m - 1) + (if m - 1 == i {
            0
        } else {
            r[m - 1]
        })
    }
}

/// `Σ_{i ≤ j < m} r[j]`.
pub open spec fn upper_row_sum(r: Seq<int>, i: int, m: int) -> int
    decreases m,
{
    if m <= i || m <= 0 {
        0
    } else {
        upper_row_sum(r, i, m - 1) + r[m - 1]
    }
}

/// `Σ_{i < m} Σ_{i ≤ j < n} s[i][j]`: the sum of the upper triangle of the first `m` rows.
pub open spec fn upper_sum(s: Seq<Seq<int>>, m: int) -> int
    decreases m,
{
    if m <= 0 {
        0
    } else {
        upper_sum(s, m - 1) + upper_row_sum(s[m - 1], m - 1, s.len() as int)
    }
}

/// The Ising bias of spin `i` read from the QUBO matrix, scaled by four:
/// `2·s[i][i] + 2·Σ_{j ≠ i} s[i][j]`.
pub open spec fn ising_bias_of(s: Seq<Seq<int>>, i: int) -> int {
    2 * s[i][i] + 2 * off_diagonal_sum(s[i], i, s.len() as int)
}

/// The Ising coupling of `(i, j)` read from the QUBO matrix, scaled by four:
/// `2·s[i][j]` above the diagonal.
pub open spec fn ising_coupling_of(s: Seq<Seq<int>>, i: int, j: int) -> int {
    if i < j {
        2 * s[i][j]
    } else {
        0
    }
}

proof fn lemma_partial_sum_bounds(r: Seq<int>, i: int, m: int)
    requires
        0 <= m <= r.len(),
        forall|j: int| 0 <= j < r.len() ==> -MAX_COEFF <= #[trigger] r[j] <= MAX_COEFF,
    ensures
        -(m * MAX_COEFF) <= off_diagonal_sum(r, i, m) <= m * MAX_COEFF,
        -(m * MAX_COEFF) <= upper_row_sum(r, i, m) <= m * MAX_COEFF,
    decreases m,
{
    if m > 0 {
        lemma_partial_sum_bounds(r, i, m - 1);
        assert((m - 1) * MAX_COEFF + MAX_COEFF == m * MAX_COEFF) by (nonlinear_arith);
        assert(0 <= (m - 1) * MAX_COEFF) by (nonlinear_arith)
            requires
                m >= 1,
        ;
        assert(-MAX_COEFF <= r[m - 1] <= MAX_COEFF);
    }
}

proof fn lemma_upper_sum_bounds(s: Seq<Seq<int>>, m: int)
    requires
        is_qubo_matrix(s),
        0 <= m <= s.len(),
    ensures
        -(m * (s.len() * MAX_COEFF)) <= upper_sum(s, m) <= m * (s.len() * MAX_COEFF),
    decreases m,
{
    if m > 0 {
        let n = s.len() as int;
        lemma_upper_sum_bounds(s, m - 1);
        let r = s[m - 1];
        assert forall|j: int| 0 <= j < r.len() implies -MAX_COEFF <= #[trigger] r[j] <= MAX_COEFF by {
            assert(-MAX_COEFF <= s[m - 1][j] <= MAX_COEFF);
        }
        lemma_partial_sum_bounds(r, m - 1, n);
        assert((m - 1) * (n * MAX_COEFF) + n * MAX_COEFF == m * (n * MAX_COEFF)) by (nonlinear_arith);
    }
}

impl QuboProblem {
    /// Builds the QUBO of an Ising model `H(σ) = Σ h·σ + Σ J·σσ` over `σ = 2x − 1`,
    /// so that `xᵀ·S·x + offset = H(σ)`: each bias `(i, h)` adds `2h` at `(i, i)`;
    /// each nonzero coupling `(i, j, J)` of two spins adds `2J` at `(i, j)` (counted
    /// twice by the symmetric storage) and `−2J` at `(i, i)` and `(j, j)`. Also
    /// returns the energy offset `Σ J − Σ h`.
    pub fn try_from_ising_triplets(
        problem_size: usize,
        j_triplets: Vec<(usize, usize, QuboType)>,
        j_biases: Vec<(usize, QuboType)>,
    ) -> (r: Result<(QuboProblem, QuboType), QuboError>)
        ensures
            !ising_small(j_triplets@, j_biases@) ==> r == Err::<(QuboProblem, QuboType), QuboError>(
                QuboError::TooLarge,
            ),
            ising_small(j_triplets@, j_biases@) ==> match r {
                Ok((p, offset)) => p.wf() && offset == ising_offset(j_triplets@, j_biases@)
                    && triplets_outcome(
                    problem_size as int,
                    ising_triplets(j_triplets@, j_biases@),
                ) == Ok::<Seq<Seq<int>>, QuboError>(p@),
                Err(e) => triplets_outcome(
                    problem_size as int,
                    ising_triplets(j_triplets@, j_biases@),
                ) == Err::<Seq<Seq<int>>, QuboError>(e),
            },
    {
        let ghost js = j_triplets@;
        let ghost hs = j_biases@;
        if j_biases.len() > MAX_TRIPLETS || j_triplets.len() > (MAX_TRIPLETS - j_biases.len()) / 3 {
            return Err(QuboError::TooLarge);
        }
        let mut triplets: Vec<(usize, usize, QuboType)> = Vec::new();
        let mut offset: QuboType = 0;
        let mut t: usize = 0;
        while t < j_biases.len()
            invariant
                hs == j_biases@,
                hs.len() <= MAX_TRIPLETS,
                t <= hs.len(),
                triplets@ == ising_bias_triplets(hs, t as int),
                offset == -bias_sum(hs, t as int),
                -(t * MAX_COEFF) <= offset <= t * MAX_COEFF,
                forall|a: int| 0 <= a < t ==> -MAX_COEFF <= (#[trigger] hs[a]).1 <= MAX_COEFF,
            decreases hs.len() - t,
        {
            let (i, b) = j_biases[t];
            assert(hs[t as int].1 == b && hs[t as int].0 == i);
            if b < -MAX_COEFF || b > MAX_COEFF {
                assert(!ising_small(js, hs));
                return Err(QuboError::TooLarge);
            }
            proof {
                assert(t * MAX_COEFF <= MAX_TRIPLETS * MAX_COEFF) by (nonlinear_arith)
                    requires t <= MAX_TRIPLETS,
                ;
                assert(t * MAX_COEFF + MAX_COEFF == (t + 1) * MAX_COEFF) by (nonlinear_arith);
            }
            triplets.push((i, i, 2 * b));
            offset = offset - b;
            t += 1;
        }
        let ghost nb = triplets@.len();
        let mut t: usize = 0;
        while t < j_triplets.len()
            invariant
                hs == j_biases@,
                js == j_triplets@,
                hs.len() + 3 * js.len() <= MAX_TRIPLETS,
                t <= js.len(),
                forall|a: int| 0 <= a < hs.len() ==> -MAX_COEFF <= (#[trigger] hs[a]).1 <= MAX_COEFF,
                forall|a: int| 0 <= a < t ==> -MAX_COEFF <= (#[trigger] js[a]).2 <= MAX_COEFF,
                triplets@ == ising_bias_triplets(hs, hs.len() as int) + ising_coupling_triplets(
                    js,
                    t as int,
                ),
                offset == coupling_sum(js, t as int) - bias_sum(hs, hs.len() as int),
                -((hs.len() + t) * MAX_COEFF) <= offset <= (hs.len() + t) * MAX_COEFF,
            decreases js.len() - t,
        {
            let (i, j, b) = j_triplets[t];
            assert(js[t as int].2 == b && js[t as int].0 == i && js[t as int].1 == j);
            if b < -MAX_COEFF || b > MAX_COEFF {
                assert(!ising_small(js, hs));
                return Err(QuboError::TooLarge);
            }
            proof {
                assert((hs.len() + t) * MAX_COEFF <= MAX_TRIPLETS * MAX_COEFF) by (nonlinear_arith)
                    requires hs.len() + t <= MAX_TRIPLETS,
                ;
                assert((hs.len() + t) * MAX_COEFF + MAX_COEFF == (hs.len() + t + 1) * MAX_COEFF)
                    by (nonlinear_arith);
            }
            let ghost before = triplets@;
            if b != 0 && i != j {
                let b2: QuboType = 2 * b;
                triplets.push((i, j, b2));
                triplets.push((i, i, -b2));
                triplets.push((j, j, -b2));
                assert(triplets@ =~= ising_bias_triplets(hs, hs.len() as int)
                    + ising_coupling_triplets(js, t as int + 1));
            } else {
                assert(triplets@ =~= ising_bias_triplets(hs, hs.len() as int)
                    + ising_coupling_triplets(js, t as int + 1));
            }
            offset = offset + b;
            t += 1;
        }
        assert(ising_small(js, hs));
        match QuboProblem::try_from_triplets(problem_size, triplets) {
            Ok(p) => Ok((p, offset)),
            Err(e) => Err(e),
        }
    }

    /// The Ising form read from the matrix, scaled by four: biases
    /// `h[i] = 2·S[i][i] + 2·Σ_{j ≠ i} S[i][j]`, couplings `J[i][j] = 2·S[i][j]`
    /// above the diagonal and 0 elsewhere, and the sum of the upper triangle of
    /// `S` as offset.
    pub fn get_ising(&self) -> (r: (Vec<QuboType>, Vec<Vec<QuboType>>, QuboType))
        requires
            self.wf(),
        ensures
            r.0@.len() == self@.len(),
            forall|i: int| 0 <= i < self@.len() ==> #[trigger] r.0@[i] == ising_bias_of(self@, i),
            is_square(rows_view(r.1@), self@.len() as int),
            forall|i: int, j: int|
                0 <= i < self@.len() && 0 <= j < self@.len() ==> #[trigger] rows_view(r.1@)[i][j]
                    == ising_coupling_of(self@, i, j),
            r.2 == upper_sum(self@, self@.len() as int),
    {
        let n = self.rows.len();
        let ghost s = self@;
        let mut h: Vec<QuboType> = Vec::new();
        let mut jm: Vec<Vec<QuboType>> = Vec::new();
        let mut offset: QuboType = 0;
        let mut i: usize = 0;
        while i < n
            invariant
                self.wf(),
                n == s.len(),
                s == self@,
                is_qubo_matrix(s),
                i <= n,
                h@.len() == i,
                jm@.len() == i,
                forall|a: int| 0 <= a < i ==> #[trigger] h@[a] == ising_bias_of(s, a),
                forall|a: int| 0 <= a < i ==> (#[trigger] jm@[a])@.len() == n,
                forall|a: int, b: int|
                    0 <= a < i && 0 <= b < n ==> (#[trigger] jm@[a]@[b]) == ising_coupling_of(s, a, b),
                offset == upper_sum(s, i as int),
            decreases n - i,
        {
            proof {
                let r = s[i as int];
                assert forall|j: int| 0 <= j < r.len() implies -MAX_COEFF <= #[trigger] r[j] <= MAX_COEFF by {
                    assert(-MAX_COEFF <= s[i as int][j] <= MAX_COEFF);
                }
                lemma_partial_sum_bounds(r, i as int, n as int);
                lemma_upper_sum_bounds(s, i as int + 1);
                lemma_limit(i as int + 1, n as int, MAX_COEFF as int);
            }
            let row = self.dense_row(i);
            let mut off_sum: QuboType = 0;
            let mut up_sum: QuboType = 0;
            let mut jrow: Vec<QuboType> = Vec::new();
            let mut j: usize = 0;
            while j < n
                invariant
                    n == s.len(),
                    s == self@,
                    is_qubo_matrix(s),
                    i < n,
                    j <= n,
                    row@.len() == n,
                    ints(row@) == s[i as int],
                    jrow@.len() == j,
                    forall|b: int| 0 <= b < j ==> (#[trigger] jrow@[b]) == ising_coupling_of(s, i as int, b),
                    off_sum == off_diagonal_sum(s[i as int], i as int, j as int),
                    up_sum == upper_row_sum(s[i as int], i as int, j as int),
                decreases n - j,
            {
                proof {
                    let r = s[i as int];
                    assert forall|b: int| 0 <= b < r.len() implies -MAX_COEFF <= #[trigger] r[b] <= MAX_COEFF by {
                        assert(-MAX_COEFF <= s[i as int][b] <= MAX_COEFF);
                    }
                    lemma_partial_sum_bounds(r, i as int, j as int + 1);
                    assert((j + 1) * MAX_COEFF <= n * MAX_COEFF) by (nonlinear_arith)
                        requires j + 1 <= n,
                    ;
                    lemma_limit(1, n as int, MAX_COEFF as int);
                }
                let v = row[j];
                assert(s[i as int][j as int] == v as int);
                if j != i {
                    off_sum = off_sum + v;
                }
                if j >= i {
                    up_sum = up_sum + v;
                }
                if j > i {
                    jrow.push(2 * v);
                } else {
                    jrow.push(0);
                }
                j += 1;
            }
            let d = row[i];
            assert(s[i as int][i as int] == d as int);
            h.push(2 * d + 2 * off_sum);
            jm.push(jrow);
            offset = offset + up_sum;
            i += 1;
        }
        proof {
            assert forall|a: int| 0 <= a < n implies (#[trigger] rows_view(jm@)[a]).len() == n by {
                lemma_rows_view(jm@, a);
            }
            assert forall|a: int, b: int| 0 <= a < n && 0 <= b < n implies #[trigger] rows_view(jm@)[a][b] == ising_coupling_of(s, a, b) by {
                lemma_rows_view(jm@, a);
            }
        }
        (h, jm, offset)
    }

    /// The matrix `S` by rows.
    pub fn get_dense(&self) -> (r: Vec<Vec<QuboType>>)
        requires
            self.wf(),
        ensures
            rows_view(r@) == self@,
    {
        let n = self.rows.len();
        let mut out: Vec<Vec<QuboType>> = Vec::new();
        let mut i: usize = 0;
        while i < n
            invariant
                self.wf(),
                n == self@.len(),
                i <= n,
                out@.len() == i,
                forall|a: int| 0 <= a < i ==> ints((#[trigger] out@[a])@) == self@[a],
            decreases n - i,
        {
            let row = self.dense_row(i);
            out.push(row);
            i += 1;
        }
        proof {
            assert forall|a: int| 0 <= a < n implies #[trigger] rows_view(out@)[a] == self@[a] by {
                lemma_rows_view(out@, a);
            }
            assert(rows_view(out@) =~= self@);
        }
        out
    }
}

} // verus!
