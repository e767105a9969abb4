//! Row-major integer matrices and the exact-integer elimination used to
//! balance equations: rows are combined by cross-multiplication (never
//! divided into fractions) and simplified by their gcd, so the grid stays
//! integral throughout.

use crate::arith::{abs_u64, div_t, gcd_u64, int_view, spec_gcd, spec_gcd_seq, spec_lcm};
use vstd::math::abs;
use vstd::prelude::*;
use vstd::slice::slice_to_vec;

verus! {

/// Row-major grid of integer coefficients.
#[derive(Debug, PartialEq, Eq)]
pub struct Matrix(pub Vec<Vec<i32>>);

/// The rows of a vector of rows, as a sequence of sequences.
pub open spec fn grid_of(rows: Seq<Vec<i32>>) -> Seq<Seq<i32>> {
    rows.map_values(|r: Vec<i32>| r@)
}

pub broadcast proof fn lemma_grid_index(rows: Seq<Vec<i32>>, i: int)
    ensures
        #![trigger rows[i]]
        #![trigger grid_of(rows)[i]]
        0 <= i < rows.len() ==> grid_of(rows)[i] == rows[i]@,
{
}

/// Every row of `g` has exactly `cols` entries.
pub open spec fn uniform(g: Seq<Seq<i32>>, cols: int) -> bool {
    forall|i: int| 0 <= i < g.len() ==> (#[trigger] g[i]).len() == cols
}

/// All entries of the row are zero.
pub open spec fn spec_is_zero_row(r: Seq<i32>) -> bool {
    forall|j: int| 0 <= j < r.len() ==> r[j] == 0
}

/// The rows of `g` that are not entirely zero, in order.
pub open spec fn keep_nonzero_rows(g: Seq<Seq<i32>>) -> Seq<Seq<i32>>
    decreases g.len(),
{
    if g.len() == 0 {
        Seq::empty()
    } else if spec_is_zero_row(g.last()) {
        keep_nonzero_rows(g.drop_last())
    } else {
        keep_nonzero_rows(g.drop_last()).push(g.last())
    }
}

/// Index of the first row at or after `r` whose entry in column `col` is
/// non-zero, if any.
pub open spec fn first_nonzero_from(g: Seq<Seq<i32>>, col: int, r: int) -> Option<int>
    decreases g.len() - r,
{
    if r < 0 || r >= g.len() {
        None
    } else if g[r].len() > col && g[r][col] != 0 {
        Some(r)
    } else {
        first_nonzero_from(g, col, r + 1)
    }
}

/// Rows `r..` of `g` are all entirely zero.
pub open spec fn all_zero_from(g: Seq<Seq<i32>>, r: int) -> bool {
    forall|i: int| r <= i < g.len() ==> spec_is_zero_row(#[trigger] g[i])
}

impl Matrix {
    /// The grid of coefficients as a sequence of rows.
    pub open spec fn grid(self) -> Seq<Seq<i32>> {
        grid_of(self.0@)
    }

    /// Well-formed: every row has the same number of entries.
    pub open spec fn wf(self) -> bool {
        uniform(self.grid(), self.spec_n_cols())
    }

    pub open spec fn spec_n_rows(self) -> int {
        self.grid().len() as int
    }

    pub open spec fn spec_n_cols(self) -> int {
        if self.grid().len() > 0 {
            self.grid()[0].len() as int
        } else {
            0
        }
    }

    #[verifier::loop_isolation(false)]
    pub fn of_arr(arr: &[&[i32]]) -> (m: Matrix)
        requires
            arr@.len() > 0,
            forall|i: int| 0 <= i < arr@.len() ==> (#[trigger] arr@[i])@.len() == arr@[0]@.len(),
        ensures
            m.grid().len() == arr@.len(),
            forall|i: int| 0 <= i < arr@.len() ==> #[trigger] m.grid()[i] == arr@[i]@,
            m.wf(),
    {
        broadcast use lemma_grid_index;

        let mut coefs: Vec<Vec<i32>> = Vec::new();
        let mut i: usize = 0;
        while i < arr.len()
            invariant
                0 <= i <= arr@.len(),
                arr@.len() > 0,
                forall|k: int|
                    0 <= k < arr@.len() ==> (#[trigger] arr@[k])@.len() == arr@[0]@.len(),
                coefs@.len() == i,
                forall|k: int| 0 <= k < i ==> (#[trigger] coefs@[k])@ == arr@[k]@,
            decreases arr@.len() - i,
        {
            let row_vec: Vec<i32> = slice_to_vec(arr[i]);
            coefs.push(row_vec);
            i = i + 1;
        }
        Matrix::of_row_major(&coefs)
    }

    #[verifier::loop_isolation(false)]
    pub fn of_row_major(coefs: &Vec<Vec<i32>>) -> (m: Matrix)
        requires
            coefs@.len() > 0,
            forall|i: int|
                0 <= i < coefs@.len() ==> (#[trigger] grid_of(coefs@)[i]).len() == grid_of(
                    coefs@,
                )[0].len(),
        ensures
            m.grid() == grid_of(coefs@),
            m.wf(),
    {
        broadcast use lemma_grid_index;

        let mut rows: Vec<Vec<i32>> = Vec::new();
        let mut i: usize = 0;
        while i < coefs.len()
            invariant
                0 <= i <= coefs@.len(),
                rows@.len() == i,
                forall|k: int| 0 <= k < i ==> (#[trigger] rows@[k])@ == coefs@[k]@,
            decreases coefs@.len() - i,
        {
            let row_vec: Vec<i32> = slice_to_vec(coefs[i].as_slice());
            rows.push(row_vec);
            i = i + 1;
        }
        proof {
            assert(grid_of(rows@) =~= grid_of(coefs@));
        }
        Matrix(rows)
    }

    pub fn coef_at(&self, row: usize, col: usize) -> (r: i32)
        requires
            0 <= row < self.grid().len(),
            0 <= col < self.grid()[row as int].len(),
        ensures
            r == self.grid()[row as int][col as int],
    {
        broadcast use lemma_grid_index;

        self.0[row][col]
    }

    #[verifier::loop_isolation(false)]
    pub fn coefs(&self) -> (r: Vec<Vec<i32>>)
        ensures
            grid_of(r@) == self.grid(),
    {
        broadcast use lemma_grid_index;

        let mut rows: Vec<Vec<i32>> = Vec::new();
        let mut i: usize = 0;
        while i < self.0.len()
            invariant
                0 <= i <= self.0@.len(),
                rows@.len() == i,
                forall|k: int| 0 <= k < i ==> (#[trigger] rows@[k])@ == self.0@[k]@,
            decreases self.0@.len() - i,
        {
            let row_vec: Vec<i32> = slice_to_vec(self.0[i].as_slice());
            rows.push(row_vec);
            i = i + 1;
        }
        proof {
            assert(grid_of(rows@) =~= self.grid());
        }
        rows
    }

    pub fn n_rows(&self) -> (r: usize)
        ensures
            r == self.spec_n_rows(),
    {
        self.0.len()
    }

    pub fn n_cols(&self) -> (r: usize)
        requires
            self.spec_n_rows() > 0,
        ensures
            r == self.spec_n_cols(),
    {
        self.0[0].len()
    }

    /// The diagonal entries, one per pivot position.
    #[verifier::loop_isolation(false)]
    pub fn diagonal(&self) -> (r: Vec<i32>)
        requires
            self.wf(),
        ensures
            r@.len() == vstd::math::min(self.spec_n_rows(), self.spec_n_cols()),
            forall|i: int| 0 <= i < r@.len() ==> r@[i] == self.grid()[i][i],
    {
        broadcast use lemma_grid_index;

        let n_rows = self.0.len();
        let n_cols = if n_rows > 0 {
            self.0[0].len()
        } else {
            0
        };
        let diag_len = if n_rows < n_cols {
            n_rows
        } else {
            n_cols
        };
        let mut out: Vec<i32> = Vec::new();
        let mut i: usize = 0;
        while i < diag_len
            invariant
                0 <= i <= diag_len,
                self.wf(),
                diag_len == vstd::math::min(self.spec_n_rows(), self.spec_n_cols()),
                out@.len() == i,
                forall|k: int| 0 <= k < i ==> out@[k] == self.grid()[k][k],
            decreases diag_len - i,
        {
            out.push(self.0[i][i]);
            i = i + 1;
        }
        out
    }

    /// The entries of column `col`, top to bottom.
    #[verifier::loop_isolation(false)]
    pub fn column(&self, col: usize) -> (r: Vec<i32>)
        requires
            self.wf(),
            0 <= col < self.spec_n_cols(),
        ensures
            r@.len() == self.spec_n_rows(),
            forall|i: int| 0 <= i < r@.len() ==> r@[i] == self.grid()[i][col as int],
    {
        broadcast use lemma_grid_index;

        let mut out: Vec<i32> = Vec::new();
        let mut i: usize = 0;
        while i < self.0.len()
            invariant
                0 <= i <= self.0@.len(),
                self.wf(),
                0 <= col < self.spec_n_cols(),
                out@.len() == i,
                forall|k: int| 0 <= k < i ==> out@[k] == self.grid()[k][col as int],
            decreases self.0@.len() - i,
        {
            out.push(self.0[i][col]);
            i = i + 1;
        }
        out
    }

    /// The matrix without its entirely-zero rows (which, after elimination,
    /// stand for redundant conservation constraints).
    #[verifier::loop_isolation(false)]
    pub fn without_full_zero_rows(&self) -> (m: Matrix)
        requires
            self.wf(),
        ensures
            m.grid() == keep_nonzero_rows(self.grid()),
            uniform(m.grid(), self.spec_n_cols()),
    {
        broadcast use lemma_grid_index;

        let mut rows: Vec<Vec<i32>> = Vec::new();
        let mut i: usize = 0;
        while i < self.0.len()
            invariant
                0 <= i <= self.0@.len(),
                self.wf(),
                grid_of(rows@) == keep_nonzero_rows(self.grid().take(i as int)),
                uniform(grid_of(rows@), self.spec_n_cols()),
            decreases self.0@.len() - i,
        {
            let ghost pre = self.grid().take(i as int);
            proof {
                assert(self.grid().take(i + 1).drop_last() =~= pre);
                assert(self.grid().take(i + 1).last() == self.grid()[i as int]);
            }
            if !is_zero_row(&self.0[i]) {
                let row_vec: Vec<i32> = slice_to_vec(self.0[i].as_slice());
                rows.push(row_vec);
                proof {
                    assert(grid_of(rows@) =~= keep_nonzero_rows(self.grid().take(i + 1)));
                }
            }
            i = i + 1;
        }
        proof {
            assert(self.grid().take(self.grid().len() as int) =~= self.grid());
        }
        Matrix(rows)
    }

    /// Returns an equivalent diagonal matrix, or reports an error when the
    /// elimination cannot proceed (or an intermediate value leaves `i32`).
    #[verifier::loop_isolation(false)]
    pub fn diagonalized(&self) -> (r: Result<Matrix, ()>)
        requires
            self.wf(),
        ensures
            r matches Ok(m) ==> {
                &&& m.wf()
                &&& m.spec_n_rows() == self.spec_n_rows()
                &&& m.spec_n_cols() == self.spec_n_cols()
                &&& forall|p: int|
                    0 <= p < vstd::math::min(m.spec_n_rows(), m.spec_n_cols())
                        ==> m.grid()[p][p] >= 0
                &&& lower_left_zero(
                    m.grid(),
                    vstd::math::min(m.spec_n_rows(), m.spec_n_cols()),
                )
                &&& upper_right_zero(
                    m.grid(),
                    0,
                    vstd::math::min(m.spec_n_rows(), m.spec_n_cols()),
                )
                &&& m.grid() == spec_diagonalize(
                    self.grid(),
                    self.spec_n_rows(),
                    self.spec_n_cols(),
                )->Some_0
            },
            (r is Ok) <==> spec_diagonalize(
                self.grid(),
                self.spec_n_rows(),
                self.spec_n_cols(),
            ) is Some,
    {
        broadcast use lemma_grid_index;

        let mut coefs = self.coefs();
        let n_rows = self.n_rows();
        let n_cols = if n_rows > 0 {
            self.n_cols()
        } else {
            0
        };
        proof {
            if self.spec_n_rows() == 0 {
                assert(n_cols as int == self.spec_n_cols());
            }
        }
        let res = diagonalize(&mut coefs, n_rows, n_cols);
        if res {
            let m = Matrix(coefs);
            proof {
                assert(m.spec_n_cols() == self.spec_n_cols());
            }
            Ok(m)
        } else {
            Err(())
        }
    }
}

/// True iff every entry of the row is zero.
#[verifier::loop_isolation(false)]
fn is_zero_row(row: &Vec<i32>) -> (r: bool)
    ensures
        r == spec_is_zero_row(row@),
{
    let mut i: usize = 0;
    while i < row.len()
        invariant
            0 <= i <= row@.len(),
            forall|j: int| 0 <= j < i ==> row@[j] == 0,
        decreases row@.len() - i,
    {
        if row[i] != 0 {
            return false;
        }
        i = i + 1;
    }
    true
}

/// Gcd of the absolute values of a row, as a `u64` (no restriction on the
/// entries).
#[verifier::loop_isolation(false)]
fn gcd_row(row: &Vec<i32>) -> (r: u64)
    ensures
        r == spec_gcd_seq(int_view(row@)),
        r <= 0x8000_0000u64,
{
    let ghost s = int_view(row@);
    let mut acc: u64 = 0;
    let mut i: usize = 0;
    while i < row.len()
        invariant
            0 <= i <= row@.len(),
            s == int_view(row@),
            acc == spec_gcd_seq(s.take(i as int)),
            acc <= 0x8000_0000u64,
        decreases row@.len() - i,
    {
        proof {
            assert(s.take(i + 1).drop_last() =~= s.take(i as int));
            assert(s.take(i + 1).last() == s[i as int]);
            crate::arith::lemma_gcd_basics(acc as nat, abs(s[i as int]) as nat);
        }
        acc = gcd_u64(acc, abs_u64(row[i]));
        i = i + 1;
    }
    proof {
        assert(s.take(s.len() as int) =~= s);
    }
    acc
}

/// The row divided entry-wise by the gcd of its entries (unchanged when the
/// gcd is zero, i.e. when the row is entirely zero).
#[verifier::loop_isolation(false)]
fn simplify_row_if_possible(row: &Vec<i32>) -> (out: Vec<i32>)
    ensures
        out@.len() == row@.len(),
        spec_gcd_seq(int_view(row@)) == 0 ==> out@ == row@,
        spec_gcd_seq(int_view(row@)) != 0 ==> forall|i: int|
            0 <= i < row@.len() ==> out@[i] == div_t(
                row@[i] as int,
                spec_gcd_seq(int_view(row@)) as int,
            ),
{
    let g = gcd_row(row);
    if g == 0 {
        return slice_to_vec(row.as_slice());
    }
    let mut out: Vec<i32> = Vec::new();
    let mut i: usize = 0;
    while i < row.len()
        invariant
            0 <= i <= row@.len(),
            g == spec_gcd_seq(int_view(row@)),
            g != 0,
            out@.len() == i,
            forall|k: int|
                0 <= k < i ==> out@[k] == div_t(row@[k] as int, g as int),
        decreases row@.len() - i,
    {
        let v: i64 = row[i] as i64;
        let q: i64 = match v.checked_div(g as i64) {
            Some(q) => q,
            None => 0,  // unreachable: the divisor is positive
        };
        proof {
            assert(q == div_t(row@[i as int] as int, g as int));
            assert(i32::MIN <= q <= i32::MAX) by {
                let a = row@[i as int] as int;
                let d = g as int;
                if a >= 0 {
                    assert(a / d <= a) by (nonlinear_arith)
                        requires
                            a >= 0 && d >= 1,
                    ;
                } else {
                    assert((-a) / d <= (-a)) by (nonlinear_arith)
                        requires
                            a < 0 && d >= 1,
                    ;
                }
            }
        }
        out.push(q as i32);
        i = i + 1;
    }
    out
}

/// Searches the first row at or below `pivot_idx` whose entry in column
/// `pivot_idx` is non-zero and swaps it into place.  Returns `true` when such
/// a row exists or when every remaining row is entirely zero.
#[verifier::loop_isolation(false)]
fn place_first_non_zero_at(
    coefs: &mut Vec<Vec<i32>>,
    pivot_idx: usize,
    n_rows: usize,
    n_cols: usize,
) -> (found: bool)
    requires
        old(coefs)@.len() == n_rows,
        uniform(grid_of(old(coefs)@), n_cols as int),
        pivot_idx < n_rows,
        pivot_idx < n_cols,
    ensures
        final(coefs)@.len() == n_rows,
        uniform(grid_of(final(coefs)@), n_cols as int),
        match first_nonzero_from(grid_of(old(coefs)@), pivot_idx as int, pivot_idx as int) {
            Some(r) => found && grid_of(final(coefs)@) == grid_of(old(coefs)@).update(
                pivot_idx as int,
                grid_of(old(coefs)@)[r],
            ).update(r, grid_of(old(coefs)@)[pivot_idx as int]),
            None => {
                &&& grid_of(final(coefs)@) == grid_of(old(coefs)@)
                &&& found == all_zero_from(grid_of(old(coefs)@), pivot_idx as int)
            },
        },
{
    broadcast use lemma_grid_index;

    let ghost g0 = grid_of(old(coefs)@);
    let mut r: usize = pivot_idx;
    while r < n_rows
        invariant
            pivot_idx <= r <= n_rows,
            coefs@.len() == n_rows,
            pivot_idx < n_cols,
            uniform(grid_of(coefs@), n_cols as int),
            grid_of(coefs@) == g0,
            first_nonzero_from(g0, pivot_idx as int, pivot_idx as int) == first_nonzero_from(
                g0,
                pivot_idx as int,
                r as int,
            ),
        decreases n_rows - r,
    {
        if coefs[r][pivot_idx] != 0 {
            if r > pivot_idx {
                let row_r: Vec<i32> = slice_to_vec(coefs[r].as_slice());
                let row_p: Vec<i32> = slice_to_vec(coefs[pivot_idx].as_slice());
                coefs[r] = row_p;
                coefs[pivot_idx] = row_r;
                proof {
                    assert(grid_of(coefs@) =~= g0.update(pivot_idx as int, g0[r as int]).update(
                        r as int,
                        g0[pivot_idx as int],
                    ));
                }
            } else {
                proof {
                    assert(g0.update(pivot_idx as int, g0[r as int]).update(
                        r as int,
                        g0[pivot_idx as int],
                    ) =~= g0);
                }
            }
            return true;
        }
        r = r + 1;
    }
    // no pivot found: acceptable only when every remaining row is zero
    let mut r2: usize = pivot_idx;
    while r2 < n_rows
        invariant
            pivot_idx <= r2 <= n_rows,
            coefs@.len() == n_rows,
            uniform(grid_of(coefs@), n_cols as int),
            grid_of(coefs@) == g0,
            first_nonzero_from(g0, pivot_idx as int, pivot_idx as int) is None,
            forall|k: int| pivot_idx <= k < r2 ==> spec_is_zero_row(#[trigger] g0[k]),
        decreases n_rows - r2,
    {
        if !is_zero_row(&coefs[r2]) {
            return false;
        }
        r2 = r2 + 1;
    }
    true
}

/// The elements of a wide working row, as mathematical integers.
pub open spec fn wide_int_view(s: Seq<i128>) -> Seq<int> {
    s.map_values(|x: i128| x as int)
}

/// The cross-multiplied combination of the target row with the pivot row:
/// each side is scaled by the lcm of the two entries in column `piv` over
/// its own entry, so that the combination vanishes in that column.
pub open spec fn spec_combined_row(g: Seq<Seq<i32>>, tgt: int, piv: int) -> Seq<int> {
    let t = g[tgt][piv] as int;
    let p = g[piv][piv] as int;
    let l = spec_lcm(abs(t) as nat, abs(p) as nat) as int;
    let rm = div_t(l, t);
    let pm = div_t(l, p);
    Seq::new(g[tgt].len(), |c: int| rm * (g[tgt][c] as int) - pm * (g[piv][c] as int))
}

/// The row divided entry-wise by the gcd of its entries (unchanged when
/// that gcd is zero).
pub open spec fn spec_simplified(row: Seq<int>) -> Seq<int> {
    let g2 = spec_gcd_seq(row) as int;
    if g2 == 0 {
        row
    } else {
        Seq::new(row.len(), |c: int| div_t(row[c], g2))
    }
}

/// Every entry lies within `i32`.
pub open spec fn row_fits_i32(row: Seq<int>) -> bool {
    forall|c: int| 0 <= c < row.len() ==> i32::MIN <= #[trigger] row[c] <= i32::MAX
}

/// A row of integers known to fit, as machine words.
pub open spec fn to_i32_row(row: Seq<int>) -> Seq<i32> {
    Seq::new(row.len(), |c: int| row[c] as i32)
}

/// One elimination step: the target row is replaced by the simplified
/// cross-multiplied combination (a no-op when either column entry is
/// already zero); `None` when a simplified entry leaves `i32`.
pub open spec fn spec_zero_out(g: Seq<Seq<i32>>, tgt: int, piv: int) -> Option<Seq<Seq<i32>>> {
    if g[piv][piv] == 0 || g[tgt][piv] == 0 {
        Some(g)
    } else {
        let srow = spec_simplified(spec_combined_row(g, tgt, piv));
        if row_fits_i32(srow) {
            Some(g.update(tgt, to_i32_row(srow)))
        } else {
            None
        }
    }
}

/// The quotient of a truncating division is no larger in magnitude than the
/// dividend.
proof fn lemma_div_t_bound(a: int, d: int)
    requires
        d != 0,
    ensures
        abs(div_t(a, d)) <= abs(a),
        a == 0 ==> div_t(a, d) == 0,
{
    let m = if a >= 0 {
        a
    } else {
        -a
    };
    let k = if d > 0 {
        d
    } else {
        -d
    };
    assert(0 <= m / k <= m) by (nonlinear_arith)
        requires
            m >= 0 && k >= 1,
    ;
}

fn gcd_u128(a: u128, b: u128) -> (r: u128)
    ensures
        r == spec_gcd(a as nat, b as nat),
{
    let mut x = a;
    let mut y = b;
    while y != 0
        invariant
            spec_gcd(x as nat, y as nat) == spec_gcd(a as nat, b as nat),
        decreases y,
    {
        let r = x % y;
        x = y;
        y = r;
    }
    x
}

fn abs_u128(a: i128) -> (r: u128)
    requires
        a != i128::MIN,
    ensures
        r == abs(a as int),
{
    if a < 0 {
        (-a) as u128
    } else {
        a as u128
    }
}

/// Combines the target row with the pivot row (cross-multiplied by the lcm of
/// their entries in column `pivot_idx`, so that the target's entry there
/// becomes zero) and simplifies the result by its gcd.  Returns `false` only
/// when a simplified entry no longer fits an `i32`.
#[verifier::loop_isolation(false)]
#[verifier::rlimit(100)]
fn zero_out_row_at_col(
    coefs: &mut Vec<Vec<i32>>,
    row_to_zero_out_idx: usize,
    pivot_idx: usize,
) -> (ok: bool)
    requires
        row_to_zero_out_idx < old(coefs)@.len(),
        pivot_idx < old(coefs)@.len(),
        row_to_zero_out_idx != pivot_idx,
        pivot_idx < grid_of(old(coefs)@)[pivot_idx as int].len(),
        grid_of(old(coefs)@)[row_to_zero_out_idx as int].len() == grid_of(
            old(coefs)@,
        )[pivot_idx as int].len(),
    ensures
        final(coefs)@.len() == old(coefs)@.len(),
        forall|i: int|
            0 <= i < final(coefs)@.len() && i != row_to_zero_out_idx ==> #[trigger] grid_of(
                final(coefs)@,
            )[i] == grid_of(old(coefs)@)[i],
        grid_of(final(coefs)@)[row_to_zero_out_idx as int].len() == grid_of(
            old(coefs)@,
        )[row_to_zero_out_idx as int].len(),
        (grid_of(old(coefs)@)[pivot_idx as int][pivot_idx as int] == 0 || grid_of(
            old(coefs)@,
        )[row_to_zero_out_idx as int][pivot_idx as int] == 0) ==> (ok && grid_of(final(coefs)@)
            == grid_of(old(coefs)@)),
        (ok && grid_of(old(coefs)@)[pivot_idx as int][pivot_idx as int] != 0 && grid_of(
            old(coefs)@,
        )[row_to_zero_out_idx as int][pivot_idx as int] != 0) ==> grid_of(
            final(coefs)@,
        )[row_to_zero_out_idx as int][pivot_idx as int] == 0,
        ok ==> forall|c: int|
            0 <= c < grid_of(old(coefs)@)[row_to_zero_out_idx as int].len() && grid_of(
                old(coefs)@,
            )[row_to_zero_out_idx as int][c] == 0 && grid_of(old(coefs)@)[pivot_idx as int][c]
                == 0 ==> #[trigger] grid_of(final(coefs)@)[row_to_zero_out_idx as int][c] == 0,
        ok <==> spec_zero_out(
            grid_of(old(coefs)@),
            row_to_zero_out_idx as int,
            pivot_idx as int,
        ) is Some,
        ok ==> grid_of(final(coefs)@) == spec_zero_out(
            grid_of(old(coefs)@),
            row_to_zero_out_idx as int,
            pivot_idx as int,
        )->Some_0,
{
    broadcast use lemma_grid_index;

    let ghost g0 = grid_of(old(coefs)@);
    let pivot = coefs[pivot_idx][pivot_idx];
    let target_coef = coefs[row_to_zero_out_idx][pivot_idx];
    if pivot == 0 || target_coef == 0 {
        proof {
            assert(grid_of(coefs@) =~= g0);
            assert(spec_zero_out(g0, row_to_zero_out_idx as int, pivot_idx as int) == Some(g0));
        }
        return true;
    }
    let ghost cv = spec_combined_row(g0, row_to_zero_out_idx as int, pivot_idx as int);
    let ut = abs_u64(target_coef);
    let up = abs_u64(pivot);
    let g = gcd_u64(ut, up);
    proof {
        crate::arith::lemma_gcd_basics(ut as nat, up as nat);
        assert(ut * up <= 0x4000_0000_0000_0000u64) by (nonlinear_arith)
            requires
                ut <= 0x8000_0000u64 && up <= 0x8000_0000u64,
        ;
    }
    let lcm_u: u64 = (ut * up) / g;
    let lcm_i: i128 = lcm_u as i128;
    let row_mul: i128 = match lcm_i.checked_div(target_coef as i128) {
        Some(q) => q,
        None => 0,  // unreachable: the divisor is non-zero
    };
    let pivot_row_mul: i128 = match lcm_i.checked_div(pivot as i128) {
        Some(q) => q,
        None => 0,  // unreachable: the divisor is non-zero
    };
    proof {
        lemma_div_t_bound(lcm_i as int, target_coef as int);
        lemma_div_t_bound(lcm_i as int, pivot as int);
        // the lcm is an exact multiple of both column entries, so the
        // cross-multipliers recover it exactly
        let uti = ut as int;
        let upi = up as int;
        let gi = g as int;
        crate::arith::lemma_gcd_divides(ut as nat, up as nat);
        assert(upi % gi == 0);
        assert(uti % gi == 0);
        vstd::arithmetic::div_mod::lemma_fundamental_div_mod(upi, gi);
        vstd::arithmetic::div_mod::lemma_fundamental_div_mod(uti, gi);
        let pq = upi / gi;
        let tq = uti / gi;
        assert(uti * upi == (uti * pq) * gi) by (nonlinear_arith)
            requires
                upi == gi * pq,
        ;
        assert(uti * upi == (tq * upi) * gi) by (nonlinear_arith)
            requires
                uti == gi * tq,
        ;
        vstd::arithmetic::div_mod::lemma_div_multiples_vanish(uti * pq, gi);
        assert((uti * pq) * gi == gi * (uti * pq)) by (nonlinear_arith);
        assert(lcm_i as int == uti * pq);
        assert(lcm_i as int == tq * upi) by (nonlinear_arith)
            requires
                uti * upi == (tq * upi) * gi && uti * upi == (uti * pq) * gi && gi >= 1
                    && lcm_i as int == uti * pq,
        ;
        vstd::arithmetic::div_mod::lemma_mod_multiples_basic(pq, uti);
        assert(uti * pq == pq * uti) by (nonlinear_arith);
        assert((lcm_i as int) % uti == 0);
        vstd::arithmetic::div_mod::lemma_mod_multiples_basic(tq, upi);
        assert(tq * upi == upi * tq) by (nonlinear_arith);
        assert((lcm_i as int) % upi == 0);
        vstd::arithmetic::div_mod::lemma_fundamental_div_mod(lcm_i as int, uti);
        vstd::arithmetic::div_mod::lemma_fundamental_div_mod(lcm_i as int, upi);
        if target_coef > 0 {
            assert(row_mul * (target_coef as int) == lcm_i as int) by (nonlinear_arith)
                requires
                    lcm_i as int == uti * ((lcm_i as int) / uti) && row_mul == (lcm_i as int)
                        / uti && target_coef as int == uti,
            ;
        } else {
            assert(row_mul * (target_coef as int) == lcm_i as int) by (nonlinear_arith)
                requires
                    lcm_i as int == uti * ((lcm_i as int) / uti) && row_mul == -((lcm_i as int)
                        / uti) && target_coef as int == -uti,
            ;
        }
        if pivot > 0 {
            assert(pivot_row_mul * (pivot as int) == lcm_i as int) by (nonlinear_arith)
                requires
                    lcm_i as int == upi * ((lcm_i as int) / upi) && pivot_row_mul == (
                    lcm_i as int) / upi && pivot as int == upi,
            ;
        } else {
            assert(pivot_row_mul * (pivot as int) == lcm_i as int) by (nonlinear_arith)
                requires
                    lcm_i as int == upi * ((lcm_i as int) / upi) && pivot_row_mul == -((
                    lcm_i as int) / upi) && pivot as int == -upi,
            ;
        }
        assert(lcm_i as int == spec_lcm(
            abs(target_coef as int) as nat,
            abs(pivot as int) as nat,
        ) as int);
        assert(row_mul as int == div_t(
            spec_lcm(abs(target_coef as int) as nat, abs(pivot as int) as nat) as int,
            target_coef as int,
        ));
        assert(pivot_row_mul as int == div_t(
            spec_lcm(abs(target_coef as int) as nat, abs(pivot as int) as nat) as int,
            pivot as int,
        ));
    }
    // cross-multiplied combination, computed wide so that no intermediate
    // value can overflow
    let n = coefs[row_to_zero_out_idx].len();
    let mut combined: Vec<i128> = Vec::new();
    let mut c: usize = 0;
    while c < n
        invariant
            0 <= c <= n,
            coefs@.len() == old(coefs)@.len(),
            grid_of(coefs@) == g0,
            row_to_zero_out_idx < coefs@.len(),
            pivot_idx < coefs@.len(),
            n == g0[row_to_zero_out_idx as int].len(),
            n == g0[pivot_idx as int].len(),
            abs(row_mul as int) <= 0x4000_0000_0000_0000,
            abs(pivot_row_mul as int) <= 0x4000_0000_0000_0000,
            pivot_idx < n,
            target_coef == g0[row_to_zero_out_idx as int][pivot_idx as int],
            pivot == g0[pivot_idx as int][pivot_idx as int],
            row_mul * (target_coef as int) == lcm_i as int,
            pivot_row_mul * (pivot as int) == lcm_i as int,
            combined@.len() == c,
            cv == spec_combined_row(g0, row_to_zero_out_idx as int, pivot_idx as int),
            cv.len() == n,
            c > pivot_idx ==> combined@[pivot_idx as int] == 0,
            forall|k: int| 0 <= k < c ==> (#[trigger] combined@[k]) as int == cv[k],
            forall|k: int|
                0 <= k < c && g0[row_to_zero_out_idx as int][k] == 0 && g0[pivot_idx as int][k]
                    == 0 ==> #[trigger] combined@[k] == 0,
            forall|k: int|
                0 <= k < c ==> abs(#[trigger] combined@[k] as int) <= 0x2_0000_0000_0000_0000_0000_0000,
        decreases n - c,
    {
        let tv: i128 = coefs[row_to_zero_out_idx][c] as i128;
        let pv: i128 = coefs[pivot_idx][c] as i128;
        proof {
            assert(abs(row_mul as int) * abs(tv as int) <= 0x4000_0000_0000_0000
                * 0x8000_0000i128) by (nonlinear_arith)
                requires
                    abs(row_mul as int) <= 0x4000_0000_0000_0000 && abs(tv as int)
                        <= 0x8000_0000i128,
            ;
            assert(abs(pivot_row_mul as int) * abs(pv as int) <= 0x4000_0000_0000_0000
                * 0x8000_0000i128) by (nonlinear_arith)
                requires
                    abs(pivot_row_mul as int) <= 0x4000_0000_0000_0000 && abs(pv as int)
                        <= 0x8000_0000i128,
            ;
            assert(abs(row_mul as int * tv as int) == abs(row_mul as int) * abs(tv as int))
                by (nonlinear_arith);
            assert(abs(pivot_row_mul as int * pv as int) == abs(pivot_row_mul as int) * abs(
                pv as int,
            )) by (nonlinear_arith);
        }
        proof {
            if tv == 0 && pv == 0 {
                assert(row_mul * tv == 0) by (nonlinear_arith)
                    requires
                        tv == 0,
                ;
                assert(pivot_row_mul * pv == 0) by (nonlinear_arith)
                    requires
                        pv == 0,
                ;
            }
        }
        let v: i128 = row_mul * tv - pivot_row_mul * pv;
        combined.push(v);
        proof {
            if c == pivot_idx {
                assert(tv == target_coef as i128);
                assert(pv == pivot as i128);
                assert(combined@[pivot_idx as int] == 0);
            }
        }
        c = c + 1;
    }
    // simplify the combined row by its gcd, as any other updated row
    proof {
        assert(wide_int_view(combined@) =~= cv);
    }
    let mut g2: u128 = 0;
    let mut c2: usize = 0;
    while c2 < n
        invariant
            0 <= c2 <= n,
            combined@.len() == n,
            cv.len() == n,
            wide_int_view(combined@) == cv,
            forall|k: int| 0 <= k < n ==> (#[trigger] combined@[k]) as int == cv[k],
            forall|k: int|
                0 <= k < n ==> abs(#[trigger] combined@[k] as int)
                    <= 0x2_0000_0000_0000_0000_0000_0000,
            g2 <= 0x2_0000_0000_0000_0000_0000_0000,
            g2 as int == spec_gcd_seq(cv.take(c2 as int)),
        decreases n - c2,
    {
        proof {
            crate::arith::lemma_gcd_basics(g2 as nat, abs(combined@[c2 as int] as int) as nat);
            assert(cv.take(c2 + 1).drop_last() =~= cv.take(c2 as int));
            assert(cv.take(c2 + 1).last() == cv[c2 as int]);
        }
        g2 = gcd_u128(g2, abs_u128(combined[c2]));
        c2 = c2 + 1;
    }
    proof {
        assert(cv.take(cv.len() as int) =~= cv);
        assert(g2 as int == spec_gcd_seq(cv));
    }
    let ghost srow = spec_simplified(cv);
    let mut new_row: Vec<i32> = Vec::new();
    let mut c3: usize = 0;
    while c3 < n
        invariant
            0 <= c3 <= n,
            combined@.len() == n,
            cv.len() == n,
            srow == spec_simplified(cv),
            srow.len() == n,
            forall|k: int| 0 <= k < n ==> (#[trigger] combined@[k]) as int == cv[k],
            pivot_idx < n,
            combined@[pivot_idx as int] == 0,
            g2 <= 0x2_0000_0000_0000_0000_0000_0000,
            g2 as int == spec_gcd_seq(cv),
            new_row@.len() == c3,
            c3 > pivot_idx ==> new_row@[pivot_idx as int] == 0,
            forall|k: int|
                0 <= k < c3 && combined@[k] == 0 ==> #[trigger] new_row@[k] == 0,
            forall|k: int| 0 <= k < c3 ==> (#[trigger] new_row@[k]) as int == srow[k],
        decreases n - c3,
    {
        let v = combined[c3];
        let q: i128 = if g2 == 0 {
            v
        } else {
            match v.checked_div(g2 as i128) {
                Some(q) => q,
                None => 0,  // unreachable: the divisor is positive
            }
        };
        proof {
            if v == 0 && g2 != 0 {
                lemma_div_t_bound(v as int, g2 as int);
            }
            assert(q as int == srow[c3 as int]);
        }
        if q < i32::MIN as i128 || q > i32::MAX as i128 {
            proof {
                assert(!row_fits_i32(srow));
                assert(spec_zero_out(g0, row_to_zero_out_idx as int, pivot_idx as int) is None);
            }
            return false;
        }
        new_row.push(q as i32);
        c3 = c3 + 1;
    }
    coefs[row_to_zero_out_idx] = new_row;
    proof {
        assert(forall|i: int|
            0 <= i < coefs@.len() && i != row_to_zero_out_idx ==> #[trigger] grid_of(coefs@)[i]
                == g0[i]);
        assert(grid_of(coefs@)[row_to_zero_out_idx as int][pivot_idx as int] == 0);
        assert forall|k: int| 0 <= k < srow.len() implies i32::MIN <= #[trigger] srow[k]
            <= i32::MAX by {
            assert(new_row@[k] as int == srow[k]);
        }
        assert(grid_of(coefs@)[row_to_zero_out_idx as int] =~= to_i32_row(srow));
        assert(grid_of(coefs@) =~= g0.update(row_to_zero_out_idx as int, to_i32_row(srow)));
    }
    true
}

proof fn lemma_first_nonzero_props(g: Seq<Seq<i32>>, col: int, r: int)
    ensures
        first_nonzero_from(g, col, r) matches Some(r0) ==> r <= r0 < g.len() && g[r0].len()
            > col && g[r0][col] != 0,
    decreases g.len() - r,
{
    if r < g.len() {
        lemma_first_nonzero_props(g, col, r + 1);
    }
}

/// Every row divided by its own gcd (the elimination's first pass).
pub open spec fn spec_simplify_pass(g: Seq<Seq<i32>>) -> Seq<Seq<i32>> {
    Seq::new(g.len(), |i: int| to_i32_row(spec_simplified(int_view(g[i]))))
}

/// Pivot placement: the first row at or below `piv` with a non-zero entry
/// in column `piv` is swapped into place; when there is none, the step
/// succeeds only if every remaining row is entirely zero.
pub open spec fn spec_place(g: Seq<Seq<i32>>, piv: int) -> Option<Seq<Seq<i32>>> {
    match first_nonzero_from(g, piv, piv) {
        Some(r) => Some(g.update(piv, g[r]).update(r, g[piv])),
        None => if all_zero_from(g, piv) {
            Some(g)
        } else {
            None
        },
    }
}

/// Eliminating column `piv` from rows `r..n_rows`.
pub open spec fn spec_forward_rows(g: Seq<Seq<i32>>, piv: int, r: int, n_rows: int) -> Option<
    Seq<Seq<i32>>,
>
    decreases n_rows - r,
{
    if r < 0 || r >= n_rows {
        Some(g)
    } else {
        match spec_zero_out(g, r, piv) {
            None => None,
            Some(g2) => spec_forward_rows(g2, piv, r + 1, n_rows),
        }
    }
}

/// The forward pass from pivot `piv` on: place each pivot, then eliminate
/// its column from the rows below.
pub open spec fn spec_forward(g: Seq<Seq<i32>>, piv: int, diag: int, n_rows: int) -> Option<
    Seq<Seq<i32>>,
>
    decreases diag - piv,
{
    if piv < 0 || piv >= diag {
        Some(g)
    } else {
        match spec_place(g, piv) {
            None => None,
            Some(g1) => match spec_forward_rows(g1, piv, piv + 1, n_rows) {
                None => None,
                Some(g2) => spec_forward(g2, piv + 1, diag, n_rows),
            },
        }
    }
}

/// Eliminating column `piv` from rows `r..piv` (above the pivot).
pub open spec fn spec_backward_rows(g: Seq<Seq<i32>>, piv: int, r: int) -> Option<Seq<Seq<i32>>>
    decreases piv - r,
{
    if r < 0 || r >= piv {
        Some(g)
    } else {
        match spec_zero_out(g, r, piv) {
            None => None,
            Some(g2) => spec_backward_rows(g2, piv, r + 1),
        }
    }
}

/// The backward pass: from the last pivot back to the first, eliminate its
/// column from the rows above.
pub open spec fn spec_backward(g: Seq<Seq<i32>>, k: int, diag: int) -> Option<Seq<Seq<i32>>>
    decreases diag - k,
{
    if k < 0 || k >= diag {
        Some(g)
    } else {
        match spec_backward_rows(g, diag - 1 - k, 0) {
            None => None,
            Some(g2) => spec_backward(g2, k + 1, diag),
        }
    }
}

/// The negated row, as mathematical integers.
pub open spec fn spec_negated_row(row: Seq<i32>) -> Seq<int> {
    Seq::new(row.len(), |c: int| -(row[c] as int))
}

/// Sign normalization from pivot `p` on: a row with a negative pivot is
/// negated; `None` when a negated entry leaves `i32`.
pub open spec fn spec_signfix(g: Seq<Seq<i32>>, p: int, diag: int) -> Option<Seq<Seq<i32>>>
    decreases diag - p,
{
    if p < 0 || p >= diag {
        Some(g)
    } else if g[p][p] >= 0 {
        spec_signfix(g, p + 1, diag)
    } else {
        let nr = spec_negated_row(g[p]);
        if row_fits_i32(nr) {
            spec_signfix(g.update(p, to_i32_row(nr)), p + 1, diag)
        } else {
            None
        }
    }
}

/// The whole elimination: simplify every row, zero the lower-left, zero
/// the upper-right, normalize pivot signs.
pub open spec fn spec_diagonalize(g: Seq<Seq<i32>>, n_rows: int, n_cols: int) -> Option<
    Seq<Seq<i32>>,
> {
    let d = vstd::math::min(n_rows, n_cols);
    match spec_forward(spec_simplify_pass(g), 0, d, n_rows) {
        None => None,
        Some(g1) => match spec_backward(g1, 0, d) {
            None => None,
            Some(g2) => spec_signfix(g2, 0, d),
        },
    }
}

/// The remainder of the forward pass after finishing rows `r..` of pivot
/// `piv`.
pub open spec fn spec_forward_from(
    g: Seq<Seq<i32>>,
    piv: int,
    r: int,
    diag: int,
    n_rows: int,
) -> Option<Seq<Seq<i32>>> {
    match spec_forward_rows(g, piv, r, n_rows) {
        None => None,
        Some(g2) => spec_forward(g2, piv + 1, diag, n_rows),
    }
}

/// The remainder of the backward pass after finishing rows `r..` of pivot
/// `diag - 1 - k`.
pub open spec fn spec_backward_from(g: Seq<Seq<i32>>, k: int, r: int, diag: int) -> Option<
    Seq<Seq<i32>>,
> {
    match spec_backward_rows(g, diag - 1 - k, r) {
        None => None,
        Some(g2) => spec_backward(g2, k + 1, diag),
    }
}

/// Entries strictly below the diagonal are zero, in the first `k` columns.
pub open spec fn lower_left_zero(g: Seq<Seq<i32>>, k: int) -> bool {
    forall|r: int, c: int| 0 <= c < k && c < r < g.len() ==> #[trigger] g[r][c] == 0
}

/// Entries strictly above each non-zero pivot are zero, for pivot columns
/// `from..to`.
pub open spec fn upper_right_zero(g: Seq<Seq<i32>>, from: int, to: int) -> bool {
    forall|r: int, c: int|
        from <= c < to && 0 <= r < c && g[c][c] != 0 ==> #[trigger] g[r][c] == 0
}

/// Gaussian elimination: simplifies each row, zeroes the lower-left and then
/// the upper-right of the diagonal, and makes every pivot non-negative.
/// Returns `true` iff it succeeds; the result then has zeros below the
/// diagonal everywhere, and zeros above every non-zero pivot.
#[verifier::loop_isolation(false)]
#[verifier::rlimit(100)]
fn diagonalize(coefs: &mut Vec<Vec<i32>>, n_rows: usize, n_cols: usize) -> (ok: bool)
    requires
        old(coefs)@.len() == n_rows,
        uniform(grid_of(old(coefs)@), n_cols as int),
    ensures
        final(coefs)@.len() == n_rows,
        uniform(grid_of(final(coefs)@), n_cols as int),
        ok ==> forall|p: int|
            0 <= p < vstd::math::min(n_rows as int, n_cols as int) ==> grid_of(
                final(coefs)@,
            )[p][p] >= 0,
        ok ==> lower_left_zero(
            grid_of(final(coefs)@),
            vstd::math::min(n_rows as int, n_cols as int),
        ),
        ok ==> upper_right_zero(
            grid_of(final(coefs)@),
            0,
            vstd::math::min(n_rows as int, n_cols as int),
        ),
        ok <==> spec_diagonalize(grid_of(old(coefs)@), n_rows as int, n_cols as int) is Some,
        ok ==> grid_of(final(coefs)@) == spec_diagonalize(
            grid_of(old(coefs)@),
            n_rows as int,
            n_cols as int,
        )->Some_0,
{
    broadcast use lemma_grid_index;

    let ghost g_in = grid_of(old(coefs)@);
    let diag_len: usize = if n_rows < n_cols {
        n_rows
    } else {
        n_cols
    };

    let mut i: usize = 0;
    while i < n_rows
        invariant
            0 <= i <= n_rows,
            coefs@.len() == n_rows,
            uniform(grid_of(coefs@), n_cols as int),
            forall|k: int|
                0 <= k < i ==> #[trigger] grid_of(coefs@)[k] == spec_simplify_pass(g_in)[k],
            forall|k: int| i <= k < n_rows ==> #[trigger] grid_of(coefs@)[k] == g_in[k],
        decreases n_rows - i,
    {
        let s = simplify_row_if_possible(&coefs[i]);
        proof {
            assert(s@ =~= to_i32_row(spec_simplified(int_view(g_in[i as int]))));
        }
        coefs[i] = s;
        i = i + 1;
    }
    let ghost g_simp = spec_simplify_pass(g_in);
    let ghost fwd_goal = spec_forward(g_simp, 0, diag_len as int, n_rows as int);
    proof {
        assert(grid_of(coefs@) =~= g_simp);
    }

    // forward pass: zero out below and left of each pivot, keeping the
    // already-cleared lower-left columns cleared
    let mut pivot_idx: usize = 0;
    while pivot_idx < diag_len
        invariant
            0 <= pivot_idx <= diag_len,
            diag_len <= n_rows,
            diag_len <= n_cols,
            coefs@.len() == n_rows,
            uniform(grid_of(coefs@), n_cols as int),
            lower_left_zero(grid_of(coefs@), pivot_idx as int),
            spec_forward(grid_of(coefs@), pivot_idx as int, diag_len as int, n_rows as int)
                == fwd_goal,
        decreases diag_len - pivot_idx,
    {
        let ghost pre_place = grid_of(coefs@);
        if !place_first_non_zero_at(coefs, pivot_idx, n_rows, n_cols) {
            proof {
                assert(spec_place(pre_place, pivot_idx as int) is None);
                assert(fwd_goal is None);
            }
            return false;
        }
        proof {
            lemma_first_nonzero_props(pre_place, pivot_idx as int, pivot_idx as int);
            assert forall|r2: int, c2: int|
                0 <= c2 < pivot_idx && c2 < r2 < grid_of(coefs@).len() implies #[trigger] grid_of(
                coefs@,
            )[r2][c2] == 0 by {
                match first_nonzero_from(pre_place, pivot_idx as int, pivot_idx as int) {
                    Some(r0) => {
                        assert(pre_place[r0][c2] == 0);
                        assert(pre_place[pivot_idx as int][c2] == 0);
                    },
                    None => {},
                }
            }
            match first_nonzero_from(pre_place, pivot_idx as int, pivot_idx as int) {
                Some(r0) => {
                    assert(grid_of(coefs@)[pivot_idx as int] == pre_place[r0]);
                    assert(grid_of(coefs@)[pivot_idx as int][pivot_idx as int] != 0);
                },
                None => {
                    assert(all_zero_from(grid_of(coefs@), pivot_idx as int));
                },
            }
            assert(spec_place(pre_place, pivot_idx as int) == Some(grid_of(coefs@)));
            assert(spec_forward_from(
                grid_of(coefs@),
                pivot_idx as int,
                pivot_idx + 1,
                diag_len as int,
                n_rows as int,
            ) == fwd_goal);
        }
        let mut r: usize = pivot_idx + 1;
        while r < n_rows
            invariant
                pivot_idx < r <= n_rows || r == pivot_idx + 1,
                pivot_idx < diag_len,
                diag_len <= n_rows,
                diag_len <= n_cols,
                coefs@.len() == n_rows,
                uniform(grid_of(coefs@), n_cols as int),
                lower_left_zero(grid_of(coefs@), pivot_idx as int),
                grid_of(coefs@)[pivot_idx as int][pivot_idx as int] != 0 || all_zero_from(
                    grid_of(coefs@),
                    pivot_idx as int,
                ),
                forall|r2: int|
                    pivot_idx < r2 < r ==> #[trigger] grid_of(coefs@)[r2][pivot_idx as int]
                        == 0,
                spec_forward_from(
                    grid_of(coefs@),
                    pivot_idx as int,
                    r as int,
                    diag_len as int,
                    n_rows as int,
                ) == fwd_goal,
            decreases n_rows - r,
        {
            let ghost pre = grid_of(coefs@);
            if !zero_out_row_at_col(coefs, r, pivot_idx) {
                proof {
                    assert(spec_zero_out(pre, r as int, pivot_idx as int) is None);
                    assert(fwd_goal is None);
                }
                return false;
            }
            proof {
                if all_zero_from(pre, pivot_idx as int) {
                    assert(spec_is_zero_row(pre[r as int]));
                    assert(pre[r as int][pivot_idx as int] == 0);
                    assert(grid_of(coefs@) =~= pre);
                }
                assert forall|r2: int, c2: int|
                    0 <= c2 < pivot_idx && c2 < r2 < grid_of(coefs@).len() implies #[trigger] grid_of(
                    coefs@,
                )[r2][c2] == 0 by {
                    if r2 == r {
                        assert(pre[r as int][c2] == 0);
                        assert(pre[pivot_idx as int][c2] == 0);
                    }
                }
                assert forall|r2: int| pivot_idx < r2 < r + 1 implies #[trigger] grid_of(
                    coefs@,
                )[r2][pivot_idx as int] == 0 by {
                    if r2 == r {
                        if pre[pivot_idx as int][pivot_idx as int] == 0 {
                            assert(spec_is_zero_row(pre[r as int]));
                        } else if pre[r as int][pivot_idx as int] == 0 {
                            assert(grid_of(coefs@) == pre);
                        }
                    }
                }
            }
            r = r + 1;
        }
        proof {
            assert forall|r2: int, c2: int|
                0 <= c2 < pivot_idx + 1 && c2 < r2 < grid_of(coefs@).len() implies #[trigger] grid_of(
                coefs@,
            )[r2][c2] == 0 by {
                if c2 == pivot_idx {
                    if all_zero_from(grid_of(coefs@), pivot_idx as int) {
                        assert(spec_is_zero_row(grid_of(coefs@)[r2]));
                    }
                }
            }
            assert(spec_forward(
                grid_of(coefs@),
                pivot_idx + 1,
                diag_len as int,
                n_rows as int,
            ) == fwd_goal);
        }
        pivot_idx = pivot_idx + 1;
    }
    let ghost g_fwd = grid_of(coefs@);
    let ghost bwd_goal = spec_backward(g_fwd, 0, diag_len as int);
    proof {
        assert(fwd_goal == Some(g_fwd));
    }

    // backward pass: zero out above each non-zero pivot, from the last pivot
    // back to the first, keeping the cleared columns cleared
    let mut k: usize = 0;
    while k < diag_len
        invariant
            0 <= k <= diag_len,
            diag_len <= n_rows,
            diag_len <= n_cols,
            coefs@.len() == n_rows,
            uniform(grid_of(coefs@), n_cols as int),
            lower_left_zero(grid_of(coefs@), diag_len as int),
            upper_right_zero(grid_of(coefs@), diag_len - k, diag_len as int),
            spec_backward(grid_of(coefs@), k as int, diag_len as int) == bwd_goal,
        decreases diag_len - k,
    {
        let p = diag_len - 1 - k;
        let mut r: usize = 0;
        while r < p
            invariant
                0 <= r <= p,
                p < diag_len,
                diag_len <= n_rows,
                diag_len <= n_cols,
                coefs@.len() == n_rows,
                uniform(grid_of(coefs@), n_cols as int),
                lower_left_zero(grid_of(coefs@), diag_len as int),
                upper_right_zero(grid_of(coefs@), p + 1, diag_len as int),
                forall|r2: int|
                    0 <= r2 < r && grid_of(coefs@)[p as int][p as int] != 0
                        ==> #[trigger] grid_of(coefs@)[r2][p as int] == 0,
                spec_backward_from(grid_of(coefs@), k as int, r as int, diag_len as int)
                    == bwd_goal,
            decreases p - r,
        {
            let ghost pre = grid_of(coefs@);
            if !zero_out_row_at_col(coefs, r, p) {
                proof {
                    assert(spec_zero_out(pre, r as int, p as int) is None);
                    assert(bwd_goal is None);
                }
                return false;
            }
            proof {
                assert forall|r2: int, c2: int|
                    0 <= c2 < diag_len && c2 < r2 < grid_of(coefs@).len() implies #[trigger] grid_of(
                    coefs@,
                )[r2][c2] == 0 by {
                    if r2 == r {
                        assert(pre[r as int][c2] == 0);
                        assert(pre[p as int][c2] == 0);
                    }
                }
                assert forall|r2: int, c2: int|
                    p + 1 <= c2 < diag_len && 0 <= r2 < c2 && grid_of(coefs@)[c2][c2] != 0
                        implies #[trigger] grid_of(coefs@)[r2][c2] == 0 by {
                    assert(grid_of(coefs@)[c2] == pre[c2]);
                    if r2 == r {
                        assert(pre[r as int][c2] == 0);
                        assert(pre[p as int][c2] == 0);
                    }
                }
                assert forall|r2: int|
                    0 <= r2 < r + 1 && grid_of(coefs@)[p as int][p as int] != 0
                        implies #[trigger] grid_of(coefs@)[r2][p as int] == 0 by {
                    assert(grid_of(coefs@)[p as int] == pre[p as int]);
                    if r2 == r {
                        if pre[r as int][p as int] == 0 {
                            assert(grid_of(coefs@) == pre);
                        }
                    }
                }
                assert(spec_zero_out(pre, r as int, p as int) == Some(grid_of(coefs@)));
                assert(spec_backward_from(grid_of(coefs@), k as int, r + 1, diag_len as int)
                    == bwd_goal);
            }
            r = r + 1;
        }
        proof {
            assert forall|r2: int, c2: int|
                p <= c2 < diag_len && 0 <= r2 < c2 && grid_of(coefs@)[c2][c2] != 0
                    implies #[trigger] grid_of(coefs@)[r2][c2] == 0 by {}
            assert(spec_backward(grid_of(coefs@), k + 1, diag_len as int) == bwd_goal);
        }
        k = k + 1;
    }
    let ghost g_bwd = grid_of(coefs@);
    let ghost fix_goal = spec_signfix(g_bwd, 0, diag_len as int);
    proof {
        assert(bwd_goal == Some(g_bwd));
    }

    // sign normalization: every pivot becomes non-negative; negating a row
    // keeps its zeros
    let mut p: usize = 0;
    while p < diag_len
        invariant
            0 <= p <= diag_len,
            diag_len == vstd::math::min(n_rows as int, n_cols as int),
            coefs@.len() == n_rows,
            uniform(grid_of(coefs@), n_cols as int),
            lower_left_zero(grid_of(coefs@), diag_len as int),
            upper_right_zero(grid_of(coefs@), 0, diag_len as int),
            forall|q: int| 0 <= q < p ==> grid_of(coefs@)[q][q] >= 0,
            spec_signfix(grid_of(coefs@), p as int, diag_len as int) == fix_goal,
        decreases diag_len - p,
    {
        let ghost pre = grid_of(coefs@);
        if coefs[p][p] < 0 {
            let mut new_row: Vec<i32> = Vec::new();
            let mut c: usize = 0;
            let n = coefs[p].len();
            while c < n
                invariant
                    0 <= c <= n,
                    coefs@.len() == n_rows,
                    p < coefs@.len(),
                    n == grid_of(coefs@)[p as int].len(),
                    new_row@.len() == c,
                    forall|j: int|
                        0 <= j < c ==> new_row@[j] == -(grid_of(coefs@)[p as int][j] as int),
                decreases n - c,
            {
                let v = coefs[p][c];
                if v == i32::MIN {
                    proof {
                        assert(grid_of(coefs@) == pre);
                        assert(spec_negated_row(pre[p as int])[c as int] == -(
                        pre[p as int][c as int] as int));
                        assert(!row_fits_i32(spec_negated_row(pre[p as int])));
                        assert(spec_signfix(pre, p as int, diag_len as int) is None);
                        assert(fix_goal is None);
                    }
                    return false;
                }
                new_row.push(-v);
                c = c + 1;
            }
            let ghost old_grid = grid_of(coefs@);
            coefs[p] = new_row;
            proof {
                assert(forall|i: int|
                    0 <= i < coefs@.len() && i != p ==> #[trigger] grid_of(coefs@)[i]
                        == old_grid[i]);
                assert forall|r2: int, c2: int|
                    0 <= c2 < diag_len && c2 < r2 < grid_of(coefs@).len() implies #[trigger] grid_of(
                    coefs@,
                )[r2][c2] == 0 by {
                    if r2 == p {
                        assert(old_grid[p as int][c2] == 0);
                    }
                }
                assert forall|r2: int, c2: int|
                    0 <= c2 < diag_len && 0 <= r2 < c2 && grid_of(coefs@)[c2][c2] != 0
                        implies #[trigger] grid_of(coefs@)[r2][c2] == 0 by {
                    assert(grid_of(coefs@)[c2][c2] != 0 ==> old_grid[c2][c2] != 0);
                    if r2 == p {
                        assert(old_grid[p as int][c2] == 0);
                    }
                }
                assert forall|j: int|
                    0 <= j < spec_negated_row(pre[p as int]).len() implies i32::MIN
                    <= #[trigger] spec_negated_row(pre[p as int])[j] <= i32::MAX by {
                    assert(new_row@[j] == -(old_grid[p as int][j] as int));
                }
                assert(row_fits_i32(spec_negated_row(pre[p as int])));
                assert(grid_of(coefs@)[p as int] =~= to_i32_row(
                    spec_negated_row(pre[p as int]),
                ));
                assert(grid_of(coefs@) =~= pre.update(
                    p as int,
                    to_i32_row(spec_negated_row(pre[p as int])),
                ));
                assert(spec_signfix(grid_of(coefs@), p + 1, diag_len as int) == fix_goal);
            }
        } else {
            proof {
                assert(spec_signfix(grid_of(coefs@), p + 1, diag_len as int) == fix_goal);
            }
        }
        p = p + 1;
    }
    proof {
        assert(fix_goal == Some(grid_of(coefs@)));
        assert(spec_diagonalize(g_in, n_rows as int, n_cols as int) == fix_goal);
    }
    true
}

} // verus!
