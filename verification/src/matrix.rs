//! A dense rectangular container stored as a flat column-major vector,
//! with element-wise mapping, per-column normalization, and multiplication.

use vstd::prelude::*;
use crate::fixed::{
    Fx, SCALE, tdiv, fxdiv, lemma_tdiv_bounds, lemma_tdiv_le, lemma_tdiv_mult_vanish, div_i128,
};

verus! {

/// A dense matrix with a fixed row and column count; the flat data vector
/// lists the entries column by column.
pub struct Mat<T> {
    pub data: Vec<T>,
    pub rows: usize,
    pub cols: usize,
}

/// The flat position of row `r`, column `c` in a column-major vector.
pub open spec fn fpos(rows: int, r: int, c: int) -> int {
    c * rows + r
}

impl<T> Mat<T> {
    /// The flat data holds exactly one entry for every position.
    pub open spec fn wf(&self) -> bool {
        self.data@.len() == self.rows * self.cols
    }

    /// The entry in row `r`, column `c`.
    pub open spec fn index(&self, r: int, c: int) -> T {
        self.data@[fpos(self.rows as int, r, c)]
    }

    /// Build a matrix from a flat column-major vector.
    pub fn from_col_vec(rows: usize, cols: usize, data: Vec<T>) -> (r: Mat<T>)
        requires
            data@.len() == rows * cols,
        ensures
            r.rows == rows,
            r.cols == cols,
            r.data@ == data@,
            r.wf(),
    {
        Mat { data, rows, cols }
    }

    pub fn nrows(&self) -> (r: usize)
        ensures
            r == self.rows,
    {
        self.rows
    }

    pub fn ncols(&self) -> (r: usize)
        ensures
            r == self.cols,
    {
        self.cols
    }
}

/// The flat position of row `r`, column `c` lies inside the data vector.
proof fn lemma_pos_in_range(rows: int, cols: int, r: int, c: int)
    requires
        0 <= r < rows,
        0 <= c < cols,
    ensures
        0 <= fpos(rows, r, c) < rows * cols,
{
    assert(0 <= c * rows + r <= rows * cols - 1) by (nonlinear_arith)
        requires
            0 <= r < rows,
            0 <= c < cols,
    ;
}

impl<T: Copy> Mat<T> {
    /// Read the entry in row `r`, column `c`.
    pub fn at(&self, r: usize, c: usize) -> (x: T)
        requires
            self.wf(),
            r < self.rows,
            c < self.cols,
        ensures
            x == self.index(r as int, c as int),
    {
        let n = self.data.len();
        proof {
            lemma_pos_in_range(self.rows as int, self.cols as int, r as int, c as int);
        }
        *self.data.get(c * self.rows + r).unwrap()
    }
}

/// Update each element of the matrix in place with the result of the given
/// function.  Every element is visited exactly once and the dimensions are
/// unchanged: the element at each position afterwards is what `f` gave for
/// the element that stood there before.
pub fn update_elems<T: Copy, F: Fn(T) -> T>(mat: &mut Mat<T>, f: F)
    requires
        old(mat).wf(),
        forall|i: int| 0 <= i < old(mat).data@.len() ==> call_requires(f, (old(mat).data@[i],)),
    ensures
        final(mat).wf(),
        final(mat).rows == old(mat).rows,
        final(mat).cols == old(mat).cols,
        final(mat).data@.len() == old(mat).data@.len(),
        forall|i: int|
            0 <= i < old(mat).data@.len() ==> call_ensures(
                f,
                (old(mat).data@[i],),
                #[trigger] final(mat).data@[i],
            ),
{
    let n = mat.data.len();
    let mut i: usize = 0;
    while i < n
        invariant
            0 <= i <= n,
            n == mat.data@.len() == old(mat).data@.len(),
            mat.rows == old(mat).rows,
            mat.cols == old(mat).cols,
            old(mat).wf(),
            forall|j: int| 0 <= j < old(mat).data@.len() ==> call_requires(f, (old(mat).data@[j],)),
            forall|j: int| i <= j < n ==> mat.data@[j] == old(mat).data@[j],
            forall|j: int|
                0 <= j < i ==> call_ensures(f, (old(mat).data@[j],), #[trigger] mat.data@[j]),
        decreases n - i,
    {
        let x = *mat.data.get(i).unwrap();
        let y = f(x);
        mat.data.set(i, y);
        i = i + 1;
    }
}

/// The largest entry of a column, in millionths, folded up from zero: an
/// all-nonpositive column reports zero.
pub open spec fn col_max(s: Seq<Fx>) -> int
    decreases s.len(),
{
    if s.len() == 0 {
        0
    } else {
        let m = col_max(s.drop_last());
        if s.last().units > m {
            s.last().units as int
        } else {
            m
        }
    }
}

/// Column `c` of the matrix, top to bottom.
pub open spec fn col_of(m: Mat<Fx>, c: int) -> Seq<Fx> {
    Seq::new(m.rows as nat, |i: int| m.data@[fpos(m.rows as int, i, c)])
}

/// A column scaled down by its own maximum, entry by entry.
pub open spec fn normalised_col(s: Seq<Fx>) -> Seq<Fx> {
    Seq::new(s.len(), |i: int| Fx { units: fxdiv(s[i].units as int, col_max(s)) as i64 })
}

/// The fold-from-zero maximum dominates every entry of the column, and is
/// never negative.
pub proof fn lemma_col_max_ge(s: Seq<Fx>, i: int)
    requires
        0 <= i < s.len(),
    ensures
        col_max(s) >= s[i].units,
        col_max(s) >= 0,
    decreases s.len(),
{
    if i + 1 < s.len() {
        lemma_col_max_ge(s.drop_last(), i);
    } else {
        if s.len() > 1 {
            lemma_col_max_ge(s.drop_last(), 0);
        }
    }
}

/// A nonzero fold-from-zero maximum is attained by some entry.
pub proof fn lemma_col_max_witness(s: Seq<Fx>)
    requires
        col_max(s) != 0,
    ensures
        exists|i: int| 0 <= i < s.len() && s[i].units == col_max(s),
    decreases s.len(),
{
    if s.last().units as int != col_max(s) {
        lemma_col_max_witness(s.drop_last());
        let i = choose|i: int|
            0 <= i < s.drop_last().len() && s.drop_last()[i].units == col_max(s.drop_last());
        assert(s[i].units == col_max(s));
    } else {
        assert(s[s.len() - 1].units == col_max(s));
    }
}

/// If every entry is at most a nonnegative bound, so is the fold-from-zero
/// maximum.
pub proof fn lemma_col_max_le(s: Seq<Fx>, b: int)
    requires
        b >= 0,
        forall|i: int| 0 <= i < s.len() ==> (#[trigger] s[i]).units <= b,
    ensures
        col_max(s) <= b,
    decreases s.len(),
{
    if s.len() > 0 {
        assert(forall|i: int|
            0 <= i < s.drop_last().len() ==> (#[trigger] s.drop_last()[i]).units <= b);
        lemma_col_max_le(s.drop_last(), b);
    }
}

/// After scaling a column by its nonzero maximum, the maximum is exactly
/// one and no entry exceeds one.
pub proof fn lemma_normalised_col_max(s: Seq<Fx>)
    requires
        col_max(s) != 0,
        forall|i: int|
            0 <= i < s.len() ==> -1_000_000_000_000 <= (#[trigger] s[i]).units
                <= 1_000_000_000_000,
    ensures
        forall|i: int| 0 <= i < s.len() ==> (#[trigger] normalised_col(s)[i]).units <= SCALE,
        col_max(normalised_col(s)) == SCALE,
{
    let m = col_max(s);
    lemma_col_max_witness(s);
    let w = choose|i: int| 0 <= i < s.len() && s[i].units == m;
    assert(m > 0) by {
        lemma_col_max_ge(s, w);
    }
    assert forall|i: int| 0 <= i < s.len() implies (#[trigger] normalised_col(s)[i]).units
        <= SCALE by {
        let e = s[i].units as int;
        lemma_col_max_ge(s, i);
        if e >= 0 {
            assert(0 <= e * (SCALE as int) <= (SCALE as int) * m) by (nonlinear_arith)
                requires
                    0 <= e <= m,
                    SCALE == 1_000_000,
            ;
            lemma_tdiv_le(e * (SCALE as int), m, SCALE as int);
        } else {
            assert((-e) * (SCALE as int) >= 0) by (nonlinear_arith)
                requires
                    e < 0,
            ;
            assert(-(e * (SCALE as int)) == (-e) * (SCALE as int)) by (nonlinear_arith);
            lemma_tdiv_bounds((-e) * (SCALE as int), m);
        }
    }
    assert(normalised_col(s)[w].units == SCALE) by {
        assert(m * (SCALE as int) == (SCALE as int) * m) by (nonlinear_arith);
        lemma_tdiv_mult_vanish(SCALE as int, m);
    }
    lemma_col_max_le(normalised_col(s), SCALE as int);
    lemma_col_max_ge(normalised_col(s), w);
}

/// Normalise each column of a matrix: divide every entry of a column by the
/// column's fold-from-zero maximum.  A column whose maximum is zero cannot
/// be scaled and is left exactly as it was.
pub fn normalise_cols(mat: &mut Mat<Fx>)
    requires
        old(mat).wf(),
        forall|i: int|
            0 <= i < old(mat).data@.len() ==> -1_000_000_000_000 <= (#[trigger] old(
                mat,
            ).data@[i]).units <= 1_000_000_000_000,
    ensures
        final(mat).wf(),
        final(mat).rows == old(mat).rows,
        final(mat).cols == old(mat).cols,
        final(mat).data@.len() == old(mat).data@.len(),
        forall|c: int|
            0 <= c < old(mat).cols && col_max(col_of(*old(mat), c)) == 0 ==> #[trigger] col_of(
                *final(mat),
                c,
            ) == col_of(*old(mat), c),
        forall|c: int|
            0 <= c < old(mat).cols && col_max(col_of(*old(mat), c)) != 0 ==> #[trigger] col_of(
                *final(mat),
                c,
            ) == normalised_col(col_of(*old(mat), c)),
{
    let rows = mat.rows;
    let cols = mat.cols;
    let n = mat.data.len();
    let mut c: usize = 0;
    while c < cols
        invariant
            0 <= c <= cols,
            rows == mat.rows == old(mat).rows,
            cols == mat.cols == old(mat).cols,
            n == mat.data@.len() == old(mat).data@.len(),
            old(mat).wf(),
            mat.wf(),
            forall|i: int|
                0 <= i < old(mat).data@.len() ==> -1_000_000_000_000 <= (#[trigger] old(
                    mat,
                ).data@[i]).units <= 1_000_000_000_000,
            forall|i: int| c * rows <= i < n ==> mat.data@[i] == old(mat).data@[i],
            forall|j: int, i: int|
                0 <= j < c && 0 <= i < rows && col_max(col_of(*old(mat), j)) == 0
                    ==> #[trigger] mat.data@[fpos(rows as int, i, j)] == old(mat).data@[fpos(
                    rows as int,
                    i,
                    j,
                )],
            forall|j: int, i: int|
                0 <= j < c && 0 <= i < rows && col_max(col_of(*old(mat), j)) != 0 ==> (
                #[trigger] mat.data@[fpos(rows as int, i, j)]).units as int == fxdiv(
                    old(mat).data@[fpos(rows as int, i, j)].units as int,
                    col_max(col_of(*old(mat), j)),
                ),
        decreases cols - c,
    {
        proof {
            assert((c as int) * (rows as int) <= (rows as int) * (cols as int) - rows)
                by (nonlinear_arith)
                requires
                    0 <= c < cols,
                    0 <= rows,
            ;
        }
        let base = c * rows;
        let ghost oldcol = col_of(*old(mat), c as int);
        proof {
            assert(oldcol.len() == rows);
            assert forall|i: int| 0 <= i < rows implies #[trigger] oldcol[i] == old(
                mat,
            ).data@[base + i] by {}
            assert forall|i: int| 0 <= i < rows implies mat.data@[base + i] == #[trigger] oldcol[i]
                by {
                lemma_pos_in_range(rows as int, cols as int, i, c as int);
            }
            assert forall|i: int| 0 <= i < rows implies -1_000_000_000_000 <= (
            #[trigger] oldcol[i]).units <= 1_000_000_000_000 by {
                lemma_pos_in_range(rows as int, cols as int, i, c as int);
            }
        }

        // First pass: the fold-from-zero maximum of this column.
        let mut mx: i64 = 0;
        let mut r: usize = 0;
        while r < rows
            invariant
                0 <= r <= rows,
                base == c as int * rows,
                c < cols,
                rows == mat.rows,
                cols == mat.cols,
                n == mat.data@.len(),
                mat.wf(),
                oldcol.len() == rows,
                forall|i: int| 0 <= i < rows ==> mat.data@[base + i] == #[trigger] oldcol[i],
                forall|i: int|
                    0 <= i < rows ==> -1_000_000_000_000 <= (#[trigger] oldcol[i]).units
                        <= 1_000_000_000_000,
                mx as int == col_max(oldcol.take(r as int)),
                0 <= mx <= 1_000_000_000_000,
            decreases rows - r,
        {
            proof {
                lemma_pos_in_range(rows as int, cols as int, r as int, c as int);
                assert(oldcol.take(r + 1).drop_last() =~= oldcol.take(r as int));
                assert(oldcol.take(r + 1).last() == oldcol[r as int]);
            }
            let e = *mat.data.get(base + r).unwrap();
            if e.units > mx {
                mx = e.units;
            }
            r = r + 1;
        }
        proof {
            assert(oldcol.take(rows as int) =~= oldcol);
            assert(mx as int == col_max(oldcol));
        }

        // Second pass: scale the column, unless its maximum is zero.
        if mx != 0 {
            let ghost prev = mat.data@;
            let mut r: usize = 0;
            while r < rows
                invariant
                    0 <= r <= rows,
                    base == c as int * rows,
                    c < cols,
                    rows == mat.rows,
                    cols == mat.cols,
                    n == mat.data@.len() == prev.len(),
                    mat.wf(),
                    oldcol.len() == rows,
                    forall|i: int| 0 <= i < rows ==> prev[base + i] == #[trigger] oldcol[i],
                    0 < mx <= 1_000_000_000_000,
                    mx as int == col_max(oldcol),
                    forall|i: int|
                        0 <= i < rows ==> -1_000_000_000_000 <= (#[trigger] oldcol[i]).units
                            <= 1_000_000_000_000,
                    forall|i: int| base + r <= i < n ==> mat.data@[i] == prev[i],
                    forall|i: int| 0 <= i < base ==> mat.data@[i] == prev[i],
                    forall|i: int|
                        0 <= i < r ==> (#[trigger] mat.data@[base + i]).units as int == fxdiv(
                            oldcol[i].units as int,
                            mx as int,
                        ),
                decreases rows - r,
            {
                proof {
                    lemma_pos_in_range(rows as int, cols as int, r as int, c as int);
                    let e = oldcol[r as int].units as int;
                    if e >= 0 {
                        lemma_tdiv_bounds(e * (SCALE as int), mx as int);
                        assert(e * (SCALE as int) <= 1_000_000_000_000 * (SCALE as int))
                            by (nonlinear_arith)
                            requires
                                0 <= e <= 1_000_000_000_000,
                                SCALE == 1_000_000,
                        ;
                    } else {
                        assert(-(e * (SCALE as int)) == (-e) * (SCALE as int)) by (nonlinear_arith);
                        lemma_tdiv_bounds((-e) * (SCALE as int), mx as int);
                        assert((-e) * (SCALE as int) <= 1_000_000_000_000 * (SCALE as int))
                            by (nonlinear_arith)
                            requires
                                0 <= -e <= 1_000_000_000_000,
                                SCALE == 1_000_000,
                        ;
                    }
                }
                let e = *mat.data.get(base + r).unwrap();
                let p: i128 = (e.units as i128) * (SCALE as i128);
                let q = div_i128(p, mx as i128);
                mat.data.set(base + r, Fx { units: q as i64 });
                r = r + 1;
            }
            proof {
                assert(rows > 0) by {
                    if rows == 0 {
                        assert(oldcol.len() == 0);
                    }
                }
                lemma_outer_step(
                    mat,
                    *old(mat),
                    prev,
                    oldcol,
                    rows as int,
                    cols as int,
                    c as int,
                    mx as int,
                );
                assert forall|i: int| (c + 1) * rows <= i < n implies mat.data@[i] == old(
                    mat,
                ).data@[i] by {
                    assert(c as int * rows <= (c + 1) * rows) by (nonlinear_arith)
                        requires
                            0 <= rows,
                            0 <= c,
                    ;
                }
            }
        } else {
            proof {
                assert forall|i: int| (c + 1) * rows <= i < n implies mat.data@[i] == old(
                    mat,
                ).data@[i] by {
                    assert(c * rows <= (c + 1) * rows) by (nonlinear_arith)
                        requires
                            0 <= rows,
                    ;
                }
                assert forall|i: int| 0 <= i < rows implies #[trigger] mat.data@[fpos(
                    rows as int,
                    i,
                    c as int,
                )] == old(mat).data@[fpos(rows as int, i, c as int)] by {
                    lemma_pos_in_range(rows as int, cols as int, i, c as int);
                }
            }
        }
        c = c + 1;
    }
    proof {
        assert forall|c: int|
            0 <= c < old(mat).cols && col_max(col_of(*old(mat), c)) == 0 implies #[trigger] col_of(
            *final(mat),
            c,
        ) == col_of(*old(mat), c) by {
            assert(col_of(*final(mat), c) =~= col_of(*old(mat), c));
        }
        assert forall|c: int|
            0 <= c < old(mat).cols && col_max(col_of(*old(mat), c)) != 0 implies #[trigger] col_of(
            *final(mat),
            c,
        ) == normalised_col(col_of(*old(mat), c)) by {
            assert(col_of(*final(mat), c) =~= normalised_col(col_of(*old(mat), c)));
        }
    }
}

/// After the second pass over column `c`, the processed columns up to and
/// including `c` read as the outer invariant requires, and the columns
/// beyond it are untouched.
proof fn lemma_outer_step(
    m: &Mat<Fx>,
    orig: Mat<Fx>,
    prev: Seq<Fx>,
    oldcol: Seq<Fx>,
    rows: int,
    cols: int,
    c: int,
    mx: int,
)
    requires
        m.wf(),
        m.rows == rows,
        m.cols == cols,
        orig.rows == rows,
        orig.cols == cols,
        m.data@.len() == prev.len() == orig.data@.len(),
        0 <= c < cols,
        0 < rows,
        oldcol.len() == rows,
        oldcol == col_of(orig, c),
        mx == col_max(oldcol),
        mx != 0,
        forall|i: int| 0 <= i < rows ==> prev[c * rows + i] == #[trigger] oldcol[i],
        forall|i: int| 0 <= i < prev.len() && !(c * rows <= i < c * rows + rows) ==> m.data@[i]
            == prev[i],
        forall|i: int|
            0 <= i < rows ==> (#[trigger] m.data@[c * rows + i]).units as int == fxdiv(
                oldcol[i].units as int,
                mx,
            ),
    ensures
        forall|i: int| 0 <= i < rows ==> #[trigger] m.data@[fpos(rows, i, c)] == normalised_col(
            col_of(orig, c),
        )[i],
        col_of(*m, c) == normalised_col(col_of(orig, c)),
        forall|i: int| (c + 1) * rows <= i < prev.len() ==> m.data@[i] == prev[i],
        forall|j: int, i: int|
            0 <= j < c && 0 <= i < rows ==> #[trigger] m.data@[fpos(rows, i, j)] == prev[fpos(
                rows,
                i,
                j,
            )],
{
    assert forall|i: int| 0 <= i < rows implies #[trigger] m.data@[fpos(rows, i, c)]
        == normalised_col(col_of(orig, c))[i] by {
        lemma_pos_in_range(rows, cols, i, c);
    }
    assert(col_of(*m, c) =~= normalised_col(col_of(orig, c)));
    assert forall|i: int| (c + 1) * rows <= i < prev.len() implies m.data@[i] == prev[i] by {
        assert((c + 1) * rows == c * rows + rows) by (nonlinear_arith);
    }
    assert forall|j: int, i: int| 0 <= j < c && 0 <= i < rows implies #[trigger] m.data@[fpos(
        rows,
        i,
        j,
    )] == prev[fpos(rows, i, j)] by {
        lemma_pos_in_range(rows, cols, i, j);
        assert(j * rows + i < c * rows) by (nonlinear_arith)
            requires
                0 <= i < rows,
                j < c,
                0 <= j,
        ;
    }
}

} // verus!
