//! A feed-forward network with a single hidden layer, expressed as two
//! weight matrices, evaluated by matrix multiplication and element-wise
//! logistic activation; and the sum-of-squared-error cost function.

use vstd::prelude::*;
use crate::fixed::{
    Fx, SCALE, tdiv, fxmul, lemma_tdiv_bounds, lemma_tdiv_le, div_i128,
};
use crate::matrix::{Mat, fpos, update_elems};
use crate::utils::{logistic_spec, HALF};

pub use crate::utils::logistic;

verus! {

/// The entries of a matrix as raw millionth counts, in column-major order.
pub open spec fn units_of(m: Mat<Fx>) -> Seq<int> {
    Seq::new(m.data@.len(), |i: int| m.data@[i].units as int)
}

/// Every entry lies in the unit interval.
pub open spec fn entries_in_unit(m: Mat<Fx>) -> bool {
    forall|i: int| 0 <= i < m.data@.len() ==> 0 <= (#[trigger] m.data@[i].units) <= SCALE
}

/// The fixed-point dot product of row `i` of an `m`-row matrix with column
/// `j` of a `brows`-row matrix, over the first `k` terms.
pub open spec fn dot_units(au: Seq<int>, bu: Seq<int>, m: int, brows: int, i: int, j: int, k: int) -> int
    decreases k,
{
    if k <= 0 {
        0
    } else {
        dot_units(au, bu, m, brows, i, j, k - 1) + fxmul(
            au[fpos(m, i, k - 1)],
            bu[fpos(brows, k - 1, j)],
        )
    }
}

/// The fixed-point matrix product, as a flat column-major sequence of raw
/// entries: `m` rows on the left, `brows` inner terms, `n` columns on the
/// right.
pub open spec fn mul_units(au: Seq<int>, bu: Seq<int>, m: int, brows: int, n: int) -> Seq<int> {
    Seq::new((m * n) as nat, |idx: int| dot_units(au, bu, m, brows, idx % m, idx / m, brows))
}

/// The logistic function applied to every raw entry.
pub open spec fn logi_units(s: Seq<int>) -> Seq<int> {
    Seq::new(s.len(), |i: int| logistic_spec(s[i]))
}

/// A dot product of unit-interval entries lies between zero and the number
/// of its terms.
pub proof fn lemma_dot_units_bounds(
    au: Seq<int>,
    bu: Seq<int>,
    m: int,
    brows: int,
    n: int,
    i: int,
    j: int,
    k: int,
)
    requires
        0 <= i < m,
        0 <= j < n,
        0 <= k <= brows,
        au.len() == m * brows,
        bu.len() == brows * n,
        forall|p: int| 0 <= p < au.len() ==> 0 <= #[trigger] au[p] <= SCALE as int,
        forall|p: int| 0 <= p < bu.len() ==> 0 <= #[trigger] bu[p] <= SCALE as int,
    ensures
        0 <= dot_units(au, bu, m, brows, i, j, k) <= k * (SCALE as int),
    decreases k,
{
    let s = SCALE as int;
    if k > 0 {
        lemma_dot_units_bounds(au, bu, m, brows, n, i, j, k - 1);
        assert(0 <= fpos(m, i, k - 1) < m * brows) by (nonlinear_arith)
            requires
                0 <= i < m,
                0 < k <= brows,
        ;
        assert(0 <= fpos(brows, k - 1, j) < brows * n) by (nonlinear_arith)
            requires
                0 <= j < n,
                0 < k <= brows,
        ;
        let x = au[fpos(m, i, k - 1)];
        let y = bu[fpos(brows, k - 1, j)];
        assert(0 <= x * y <= s * s) by (nonlinear_arith)
            requires
                0 <= x <= s,
                0 <= y <= s,
        ;
        lemma_tdiv_bounds(x * y, s);
        lemma_tdiv_le(x * y, s, s);
        assert((k - 1) * s + s == k * s) by (nonlinear_arith);
    }
}

/// The fixed-point matrix product.  Entries of both operands must lie in
/// the unit interval; every result entry then lies between zero and the
/// inner dimension.
pub fn matmul(a: &Mat<Fx>, b: &Mat<Fx>) -> (r: Mat<Fx>)
    requires
        a.wf(),
        b.wf(),
        a.cols == b.rows,
        a.cols <= 1_000_000,
        entries_in_unit(*a),
        entries_in_unit(*b),
    ensures
        r.wf(),
        r.rows == a.rows,
        r.cols == b.cols,
        units_of(r) == mul_units(
            units_of(*a),
            units_of(*b),
            a.rows as int,
            b.rows as int,
            b.cols as int,
        ),
        forall|idx: int|
            0 <= idx < r.data@.len() ==> 0 <= (#[trigger] r.data@[idx].units) && r.data@[idx].units
                as int <= (a.cols as int) * (SCALE as int),
{
    let m = a.nrows();
    let inner = a.ncols();
    let n = b.ncols();
    let ghost au = units_of(*a);
    let ghost bu = units_of(*b);
    proof {
        assert forall|p: int| 0 <= p < au.len() implies 0 <= #[trigger] au[p] <= SCALE as int by {}
        assert forall|p: int| 0 <= p < bu.len() implies 0 <= #[trigger] bu[p] <= SCALE as int by {}
    }
    let mut data: Vec<Fx> = Vec::new();
    let mut j: usize = 0;
    while j < n
        invariant
            0 <= j <= n,
            m == a.rows,
            inner == a.cols == b.rows,
            n == b.cols,
            inner <= 1_000_000,
            a.wf(),
            b.wf(),
            entries_in_unit(*a),
            entries_in_unit(*b),
            au == units_of(*a),
            bu == units_of(*b),
            forall|p: int| 0 <= p < au.len() ==> 0 <= #[trigger] au[p] <= SCALE as int,
            forall|p: int| 0 <= p < bu.len() ==> 0 <= #[trigger] bu[p] <= SCALE as int,
            data@.len() == j * m,
            forall|jj: int, ii: int|
                0 <= jj < j && 0 <= ii < m ==> (#[trigger] data@[fpos(m as int, ii, jj)]).units
                    as int == dot_units(au, bu, m as int, inner as int, ii, jj, inner as int),
        decreases n - j,
    {
        let mut i: usize = 0;
        while i < m
            invariant
                0 <= i <= m,
                0 <= j < n,
                m == a.rows,
                inner == a.cols == b.rows,
                n == b.cols,
                inner <= 1_000_000,
                a.wf(),
                b.wf(),
                entries_in_unit(*a),
                entries_in_unit(*b),
                au == units_of(*a),
                bu == units_of(*b),
                forall|p: int| 0 <= p < au.len() ==> 0 <= #[trigger] au[p] <= SCALE as int,
                forall|p: int| 0 <= p < bu.len() ==> 0 <= #[trigger] bu[p] <= SCALE as int,
                data@.len() == j * m + i,
                forall|jj: int, ii: int|
                    0 <= jj < j && 0 <= ii < m ==> (#[trigger] data@[fpos(m as int, ii, jj)]).units
                        as int == dot_units(au, bu, m as int, inner as int, ii, jj, inner as int),
                forall|ii: int|
                    0 <= ii < i ==> (#[trigger] data@[fpos(m as int, ii, j as int)]).units as int
                        == dot_units(au, bu, m as int, inner as int, ii, j as int, inner as int),
            decreases m - i,
        {
            let mut acc: i64 = 0;
            let mut k: usize = 0;
            while k < inner
                invariant
                    0 <= k <= inner,
                    0 <= i < m,
                    0 <= j < n,
                    m == a.rows,
                    inner == a.cols == b.rows,
                    n == b.cols,
                    inner <= 1_000_000,
                    a.wf(),
                    b.wf(),
                    entries_in_unit(*a),
                    entries_in_unit(*b),
                    au == units_of(*a),
                    bu == units_of(*b),
                    forall|p: int| 0 <= p < au.len() ==> 0 <= #[trigger] au[p] <= SCALE as int,
                    forall|p: int| 0 <= p < bu.len() ==> 0 <= #[trigger] bu[p] <= SCALE as int,
                    acc as int == dot_units(au, bu, m as int, inner as int, i as int, j as int, k as int),
                    0 <= acc as int <= (k as int) * (SCALE as int),
                decreases inner - k,
            {
                let x = a.at(i, k);
                let y = b.at(k, j);
                proof {
                    let xv = x.units as int;
                    let yv = y.units as int;
                    assert(0 <= fpos(m as int, i as int, k as int) < au.len()) by (nonlinear_arith)
                        requires
                            au.len() == (m as int) * (inner as int),
                            0 <= i < m,
                            0 <= k < inner,
                    ;
                    assert(0 <= fpos(inner as int, k as int, j as int) < bu.len())
                        by (nonlinear_arith)
                        requires
                            bu.len() == (inner as int) * (n as int),
                            0 <= k < inner,
                            0 <= j < n,
                    ;
                    assert(xv == au[fpos(m as int, i as int, k as int)]);
                    assert(yv == bu[fpos(inner as int, k as int, j as int)]);
                    assert(0 <= xv * yv <= (SCALE as int) * (SCALE as int)) by (nonlinear_arith)
                        requires
                            0 <= xv <= SCALE as int,
                            0 <= yv <= SCALE as int,
                    ;
                    lemma_tdiv_bounds(xv * yv, SCALE as int);
                    lemma_tdiv_le(xv * yv, SCALE as int, SCALE as int);
                    assert((k as int) * (SCALE as int) + SCALE as int == (k + 1) * (SCALE as int))
                        by (nonlinear_arith);
                    assert((k + 1) * (SCALE as int) <= 1_000_000 * (SCALE as int))
                        by (nonlinear_arith)
                        requires
                            k + 1 <= 1_000_000,
                    ;
                }
                let p: i128 = (x.units as i128) * (y.units as i128);
                let q = div_i128(p, SCALE as i128);
                acc = acc + (q as i64);
                k = k + 1;
            }
            data.push(Fx { units: acc });
            i = i + 1;
            proof {
                assert(fpos(m as int, i - 1, j as int) == data@.len() - 1) by (nonlinear_arith)
                    requires
                        data@.len() == (j as int) * (m as int) + i,
                        fpos(m as int, i - 1, j as int) == (j as int) * (m as int) + (i - 1),
                ;
                assert forall|ii: int|
                    0 <= ii < i implies (#[trigger] data@[fpos(m as int, ii, j as int)]).units
                    as int == dot_units(au, bu, m as int, inner as int, ii, j as int, inner as int)
                    by {
                    assert(0 <= fpos(m as int, ii, j as int) < data@.len()) by (nonlinear_arith)
                        requires
                            0 <= ii < i,
                            data@.len() == (j as int) * (m as int) + i,
                            fpos(m as int, ii, j as int) == (j as int) * (m as int) + ii,
                    ;
                }
                assert forall|jj: int, ii: int|
                    0 <= jj < j && 0 <= ii < m implies (#[trigger] data@[fpos(
                    m as int,
                    ii,
                    jj,
                )]).units as int == dot_units(au, bu, m as int, inner as int, ii, jj, inner as int)
                    by {
                    assert(0 <= fpos(m as int, ii, jj) < (j as int) * (m as int))
                        by (nonlinear_arith)
                        requires
                            0 <= ii < m,
                            0 <= jj < j,
                            fpos(m as int, ii, jj) == jj * (m as int) + ii,
                    ;
                }
            }
        }
        j = j + 1;
        proof {
            assert((j - 1) * (m as int) + m == (j as int) * (m as int)) by (nonlinear_arith);
        }
    }
    proof {
        assert((n as int) * (m as int) == (m as int) * (n as int)) by (nonlinear_arith);
    }
    let r = Mat::from_col_vec(m, n, data);
    proof {
        let mu = mul_units(au, bu, m as int, inner as int, n as int);
        assert forall|idx: int| 0 <= idx < r.data@.len() implies units_of(r)[idx] == mu[idx] by {
            let ii = idx % (m as int);
            let jj = idx / (m as int);
            vstd::arithmetic::div_mod::lemma_fundamental_div_mod(idx, m as int);
            vstd::arithmetic::div_mod::lemma_mod_bound(idx, m as int);
            assert(0 <= jj < n) by (nonlinear_arith)
                requires
                    idx == (m as int) * jj + ii,
                    0 <= ii < m,
                    0 <= idx < (m as int) * (n as int),
            ;
            assert((m as int) * jj == jj * (m as int)) by (nonlinear_arith);
            assert(fpos(m as int, ii, jj) == idx);
            lemma_dot_units_bounds(au, bu, m as int, inner as int, n as int, ii, jj, inner as int);
        }
        assert(units_of(r) =~= mul_units(au, bu, m as int, inner as int, n as int));
        assert forall|idx: int|
            0 <= idx < r.data@.len() implies 0 <= (#[trigger] r.data@[idx].units) && r.data@[
            idx
        ].units as int <= (inner as int) * (SCALE as int) by {
            let ii = idx % (m as int);
            let jj = idx / (m as int);
            vstd::arithmetic::div_mod::lemma_fundamental_div_mod(idx, m as int);
            vstd::arithmetic::div_mod::lemma_mod_bound(idx, m as int);
            assert(0 <= jj < n) by (nonlinear_arith)
                requires
                    idx == (m as int) * jj + ii,
                    0 <= ii < m,
                    0 <= idx < (m as int) * (n as int),
            ;
            assert((m as int) * jj == jj * (m as int)) by (nonlinear_arith);
            assert(fpos(m as int, ii, jj) == idx);
            lemma_dot_units_bounds(au, bu, m as int, inner as int, n as int, ii, jj, inner as int);
        }
    }
    r
}

/// An artificial neural network with a single hidden layer.  The matrices
/// are column-major.
pub struct Network {
    /// The matrix of hidden weights: one column for each hidden neuron,
    /// one row for each input.
    pub hidden_weights: Mat<Fx>,
    /// The matrix of output weights: one column for each output neuron,
    /// one row for each hidden neuron.
    pub output_weights: Mat<Fx>,
}

/// Relies on `rand::random`: an independent draw of an arbitrary value of a
/// type the standard distribution covers.  Nothing is promised of the value.
pub assume_specification<T>[ rand::random::<T> ]() -> (r: T)
    where
        rand::distributions::Standard: rand::distributions::Distribution<T>,
;

/// One uniformly drawn fixed-point weight in the unit interval.
fn random_weight() -> (r: Fx)
    ensures
        0 <= r.units <= SCALE,
{
    let x: u32 = rand::random();
    proof {
        let xv = x as int;
        assert(0 <= xv * (SCALE as int) <= (SCALE as int) * 4294967295) by (nonlinear_arith)
            requires
                0 <= xv <= 4294967295,
                SCALE == 1_000_000,
        ;
        lemma_tdiv_bounds(xv * (SCALE as int), 4294967295);
        lemma_tdiv_le(xv * (SCALE as int), 4294967295, SCALE as int);
    }
    let p: u64 = (x as u64) * (SCALE as u64);
    let q: u64 = p / 4294967295u64;
    Fx { units: q as i64 }
}

/// A freshly drawn weight matrix with entries in the unit interval.
fn random_mat(rows: usize, cols: usize) -> (r: Mat<Fx>)
    requires
        rows * cols <= usize::MAX,
    ensures
        r.wf(),
        r.rows == rows,
        r.cols == cols,
        entries_in_unit(r),
{
    let mut data: Vec<Fx> = Vec::new();
    let mut c: usize = 0;
    while c < cols
        invariant
            0 <= c <= cols,
            rows * cols <= usize::MAX,
            data@.len() == c * rows,
            forall|i: int| 0 <= i < data@.len() ==> 0 <= (#[trigger] data@[i].units) <= SCALE,
        decreases cols - c,
    {
        let mut r: usize = 0;
        while r < rows
            invariant
                0 <= r <= rows,
                0 <= c < cols,
                rows * cols <= usize::MAX,
                data@.len() == c * rows + r,
                forall|i: int| 0 <= i < data@.len() ==> 0 <= (#[trigger] data@[i].units) <= SCALE,
            decreases rows - r,
        {
            proof {
                assert((c as int) * (rows as int) + rows <= (rows as int) * (cols as int))
                    by (nonlinear_arith)
                    requires
                        0 <= c < cols,
                        0 <= rows,
                ;
            }
            let w = random_weight();
            data.push(w);
            r = r + 1;
        }
        c = c + 1;
        proof {
            assert((c - 1) * (rows as int) + rows == (c as int) * (rows as int))
                by (nonlinear_arith);
        }
    }
    proof {
        assert((cols as int) * (rows as int) == (rows as int) * (cols as int))
            by (nonlinear_arith);
    }
    Mat::from_col_vec(rows, cols, data)
}

impl Network {
    /// The two weight matrices agree on the hidden layer's width, their
    /// entries lie in the unit interval, and the dimensions are bounded.
    pub open spec fn wf(&self) -> bool {
        &&& self.hidden_weights.wf()
        &&& self.output_weights.wf()
        &&& self.hidden_weights.cols == self.output_weights.rows
        &&& self.hidden_weights.rows <= 1_000_000
        &&& self.hidden_weights.cols <= 1_000_000
        &&& entries_in_unit(self.hidden_weights)
        &&& entries_in_unit(self.output_weights)
    }

    /// Construct a network whose weights are all freshly drawn from a
    /// uniform source, each entry independently, in the unit interval.
    pub fn new(n_inputs: usize, n_hidden: usize, n_outputs: usize) -> (r: Network)
        requires
            n_inputs <= 1_000_000,
            n_hidden <= 1_000_000,
            n_outputs <= 1_000_000,
            n_inputs * n_hidden <= usize::MAX,
            n_hidden * n_outputs <= usize::MAX,
        ensures
            r.wf(),
            r.hidden_weights.rows == n_inputs,
            r.hidden_weights.cols == n_hidden,
            r.output_weights.rows == n_hidden,
            r.output_weights.cols == n_outputs,
    {
        Network {
            hidden_weights: random_mat(n_inputs, n_hidden),
            output_weights: random_mat(n_hidden, n_outputs),
        }
    }

    /// Generate a matrix of guesses by feeding forward a matrix of inputs:
    /// each row one example, each column one input feature.  The result is
    /// the input times the hidden weights, squashed entry-wise by the
    /// logistic function, times the output weights, squashed again; every
    /// entry therefore lies strictly between zero and one (indeed at or
    /// above one half, the activities being nonnegative).
    pub fn forward(&self, input_data: Mat<Fx>) -> (r: Mat<Fx>)
        requires
            self.wf(),
            input_data.wf(),
            input_data.cols == self.hidden_weights.rows,
            entries_in_unit(input_data),
        ensures
            r.wf(),
            r.rows == input_data.rows,
            r.cols == self.output_weights.cols,
            units_of(r) == logi_units(
                mul_units(
                    logi_units(
                        mul_units(
                            units_of(input_data),
                            units_of(self.hidden_weights),
                            input_data.rows as int,
                            self.hidden_weights.rows as int,
                            self.hidden_weights.cols as int,
                        ),
                    ),
                    units_of(self.output_weights),
                    input_data.rows as int,
                    self.output_weights.rows as int,
                    self.output_weights.cols as int,
                ),
            ),
            forall|i: int|
                0 <= i < r.data@.len() ==> HALF <= (#[trigger] r.data@[i].units) < SCALE,
    {
        let squash = |z: Fx| -> (y: Fx)
            ensures
                y.units as int == logistic_spec(z.units as int),
                0 <= y.units < SCALE,
                z.units >= 0 ==> HALF <= y.units,
            {
                logistic(z)
            };

        // The hidden layer's activity: inputs times hidden weights, then
        // the activation applied to every element.
        let mut hidden_activity = matmul(&input_data, &self.hidden_weights);
        let ghost ha0 = hidden_activity;
        update_elems(&mut hidden_activity, squash);
        proof {
            assert forall|i: int| 0 <= i < hidden_activity.data@.len() implies (
            #[trigger] hidden_activity.data@[i]).units as int == logistic_spec(
                ha0.data@[i].units as int,
            ) && 0 <= hidden_activity.data@[i].units < SCALE by {}
            assert(units_of(hidden_activity) =~= logi_units(units_of(ha0)));
        }

        // The output layer's activity: hidden activity times output
        // weights, then the activation again.
        let mut output_activity = matmul(&hidden_activity, &self.output_weights);
        let ghost oa0 = output_activity;
        update_elems(&mut output_activity, squash);
        proof {
            assert forall|i: int| 0 <= i < output_activity.data@.len() implies (
            #[trigger] output_activity.data@[i]).units as int == logistic_spec(
                oa0.data@[i].units as int,
            ) && HALF <= output_activity.data@[i].units < SCALE by {
                assert(oa0.data@[i].units >= 0);
            }
            assert(units_of(output_activity) =~= logi_units(units_of(oa0)));
        }
        output_activity
    }
}

/// The summed halved squared error over the first `k` paired entries.
pub open spec fn cost_prefix(g: Seq<int>, t: Seq<int>, k: int) -> int
    decreases k,
{
    if k <= 0 {
        0
    } else {
        cost_prefix(g, t, k - 1) + tdiv(fxmul(t[k - 1] - g[k - 1], t[k - 1] - g[k - 1]), 2)
    }
}

/// The paired entries of two sequences: as many as the shorter one holds.
pub open spec fn paired_len(g: Seq<int>, t: Seq<int>) -> int {
    if g.len() <= t.len() {
        g.len() as int
    } else {
        t.len() as int
    }
}

/// The sum of the halved squared error of each guess compared to its
/// correct result.  Sequences of unequal length are paired up to the
/// shorter one.
pub fn cost(guesses: &Vec<Fx>, correct: &Vec<Fx>) -> (r: Fx)
    requires
        guesses@.len() <= 1_000_000,
        correct@.len() <= 1_000_000,
        forall|i: int|
            0 <= i < guesses@.len() ==> -1_000_000_000 <= (#[trigger] guesses@[i].units)
                <= 1_000_000_000,
        forall|i: int|
            0 <= i < correct@.len() ==> -1_000_000_000 <= (#[trigger] correct@[i].units)
                <= 1_000_000_000,
    ensures
        r.units as int == cost_prefix(
            guesses@.map(|i: int, x: Fx| x.units as int),
            correct@.map(|i: int, x: Fx| x.units as int),
            paired_len(
                guesses@.map(|i: int, x: Fx| x.units as int),
                correct@.map(|i: int, x: Fx| x.units as int),
            ),
        ),
        0 <= r.units,
{
    let ghost g = guesses@.map(|i: int, x: Fx| x.units as int);
    let ghost t = correct@.map(|i: int, x: Fx| x.units as int);
    let n = if guesses.len() <= correct.len() {
        guesses.len()
    } else {
        correct.len()
    };
    let mut so_far: i64 = 0;
    let mut i: usize = 0;
    while i < n
        invariant
            0 <= i <= n,
            n == paired_len(g, t),
            n <= guesses@.len(),
            n <= correct@.len(),
            n <= 1_000_000,
            g == guesses@.map(|i: int, x: Fx| x.units as int),
            t == correct@.map(|i: int, x: Fx| x.units as int),
            forall|j: int| 0 <= j < g.len() ==> -1_000_000_000 <= #[trigger] g[j] <= 1_000_000_000,
            forall|j: int| 0 <= j < t.len() ==> -1_000_000_000 <= #[trigger] t[j] <= 1_000_000_000,
            so_far as int == cost_prefix(g, t, i as int),
            0 <= so_far as int <= (i as int) * 2_000_000_000_000,
        decreases n - i,
    {
        let guess = *guesses.get(i).unwrap();
        let correct_v = *correct.get(i).unwrap();
        proof {
            assert(g[i as int] == guesses@[i as int].units as int);
            assert(t[i as int] == correct@[i as int].units as int);
        }
        let error: i64 = correct_v.units - guess.units;
        proof {
            let e = error as int;
            assert(0 <= e * e <= 4_000_000_000_000_000_000) by (nonlinear_arith)
                requires
                    -2_000_000_000 <= e <= 2_000_000_000,
            ;
            lemma_tdiv_bounds(e * e, SCALE as int);
            lemma_tdiv_le(e * e, SCALE as int, 4_000_000_000_000);
            lemma_tdiv_bounds(tdiv(e * e, SCALE as int), 2);
            assert((i as int) * 2_000_000_000_000 + 2_000_000_000_000 == (i + 1)
                * 2_000_000_000_000) by (nonlinear_arith);
            assert((i + 1) * 2_000_000_000_000 <= 1_000_000 * 2_000_000_000_000)
                by (nonlinear_arith)
                requires
                    i + 1 <= 1_000_000,
            ;
        }
        let p: i128 = (error as i128) * (error as i128);
        let sq = div_i128(p, SCALE as i128);
        let half = div_i128(sq, 2);
        so_far = so_far + (half as i64);
        i = i + 1;
    }
    Fx { units: so_far }
}

} // verus!
