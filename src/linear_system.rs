use crate::rational::{lemma_frac_congr, lemma_frac_eq_trans, frac_add, frac_div, frac_eq, frac_mul, rat_add, rat_div, rat_eq, rat_mul, rat_neg, Rational};
use vstd::prelude::*;

verus! {

/// The transpose of a rectangular matrix with at least one row.
pub fn transpose<T: Copy>(matrix: &Vec<Vec<T>>) -> (r: Vec<Vec<T>>)
    requires
        matrix@.len() > 0,
        forall|i: int| 0 <= i < matrix@.len() ==> (#[trigger] matrix@[i])@.len() == matrix@[0]@.len(),
    ensures
        r@.len() == matrix@[0]@.len(),
        forall|j: int| 0 <= j < r@.len() ==> (#[trigger] r@[j])@.len() == matrix@.len(),
        forall|i: int, j: int|
            0 <= i < matrix@.len() && 0 <= j < r@.len() ==> (#[trigger] r@[j])@[i] == (#[trigger] matrix@[i])@[j],
{
    let mut result: Vec<Vec<T>> = Vec::new();
    let cols = matrix[0].len();
    let mut j: usize = 0;
    while j < cols
        invariant
            j <= cols,
            cols == matrix@[0]@.len(),
            forall|i: int| 0 <= i < matrix@.len() ==> (#[trigger] matrix@[i])@.len() == cols,
            result@.len() == j,
            forall|c: int| 0 <= c < j ==> (#[trigger] result@[c])@.len() == matrix@.len(),
            forall|i: int, c: int|
                0 <= i < matrix@.len() && 0 <= c < j ==> (#[trigger] result@[c])@[i] == (#[trigger] matrix@[i])@[c],
        decreases cols - j,
    {
        let mut row: Vec<T> = Vec::new();
        let mut i: usize = 0;
        while i < matrix.len()
            invariant
                j < cols,
                i <= matrix@.len(),
                forall|k: int| 0 <= k < matrix@.len() ==> (#[trigger] matrix@[k])@.len() == cols,
                row@.len() == i,
                forall|k: int| 0 <= k < i ==> row@[k] == (#[trigger] matrix@[k])@[j as int],
            decreases matrix.len() - i,
        {
            row.push(matrix[i][j]);
            i += 1;
        }
        result.push(row);
        j += 1;
    }
    result
}

/// The column of a row's pivot: its first non-zero entry before column `lim`, or `lim`.
pub open spec fn first_nonzero(row: Seq<(int, int)>, c: int, lim: int) -> int
    decreases lim - c,
{
    if c >= lim {
        lim
    } else if row[c].0 != 0 {
        c
    } else {
        first_nonzero(row, c + 1, lim)
    }
}

/// Row `r` of `mat` (with `m` columns, the last one the right-hand side) is pivoted: it has a
/// non-zero coefficient, the first one is one, and every other row is zero in that column.
pub open spec fn pivoted(mat: Seq<Seq<(int, int)>>, m: int, r: int) -> bool {
    let c = first_nonzero(mat[r], 0, m - 1);
    &&& c < m - 1
    &&& mat[r][c].0 == mat[r][c].1
    &&& forall|i: int| 0 <= i < mat.len() && i != r ==> (#[trigger] mat[i])[c].0 == 0
}

/// How many of the first `k` rows are pivoted.
pub open spec fn count_pivoted(mat: Seq<Seq<(int, int)>>, m: int, k: int) -> nat
    decreases k,
{
    if k <= 0 {
        0
    } else {
        count_pivoted(mat, m, k - 1) + if pivoted(mat, m, k - 1) {
            1nat
        } else {
            0nat
        }
    }
}

/// Row `r` can pivot column `c`: it is not pivoted and is not zero there.
pub open spec fn eligible(mat: Seq<Seq<(int, int)>>, m: int, r: int, c: int) -> bool {
    !pivoted(mat, m, r) && mat[r][c].0 != 0
}

/// The first row from `k` on that can pivot column `c`, or the number of rows.
pub open spec fn first_eligible(mat: Seq<Seq<(int, int)>>, m: int, c: int, k: int) -> int
    decreases mat.len() - k,
{
    if k >= mat.len() {
        mat.len() as int
    } else if eligible(mat, m, k, c) {
        k
    } else {
        first_eligible(mat, m, c, k + 1)
    }
}

/// `ms` runs the elimination of columns `0..ms.len() - 1`: each matrix is, up to the values of
/// its entries, one elimination step on the next column of the one before.
pub open spec fn elimination_steps(ms: Seq<Seq<Seq<(int, int)>>>, m: int) -> bool {
    forall|k: int| 0 <= k < ms.len() - 1 ==> meq(#[trigger] ms[k + 1], step_col(ms[k], m, k))
}

/// Two matrices of the same shape whose entries are equal as numbers.
pub open spec fn meq(a: Seq<Seq<(int, int)>>, b: Seq<Seq<(int, int)>>) -> bool {
    &&& a.len() == b.len()
    &&& forall|r: int| 0 <= r < a.len() ==> (#[trigger] a[r]).len() == b[r].len()
    &&& forall|r: int, j: int| 0 <= r < a.len() && 0 <= j < a[r].len() ==> frac_eq(#[trigger] a[r][j], b[r][j])
}

/// One step of Gauss-Jordan elimination on column `c` of `mat` (with `m` columns): the first
/// row that is neither pivoted nor zero in `c` is swapped into the slot after the pivoted
/// rows, scaled to one in `c`, and subtracted from every other row that is not zero in `c`,
/// in proportion to that entry. Without such a row the matrix is unchanged.
pub open spec fn step_col(mat: Seq<Seq<(int, int)>>, m: int, c: int) -> Seq<Seq<(int, int)>> {
    let pr = first_eligible(mat, m, c, 0);
    if pr >= mat.len() {
        mat
    } else {
        let np = count_pivoted(mat, m, mat.len() as int) as int;
        let s = if pr != np {
            mat.update(pr, mat[np]).update(np, mat[pr])
        } else {
            mat
        };
        let inv = frac_div((1, 1), s[np][c]);
        let p = s[np].map_values(|x: (int, int)| frac_mul(x, inv));
        Seq::new(
            mat.len(),
            |r: int|
                if r == np {
                    p
                } else if s[r][c].0 != 0 {
                    Seq::new(s[r].len(), |j: int| frac_add(s[r][j], frac_mul(p[j], (-s[r][c].0, s[r][c].1))))
                } else {
                    s[r]
                },
        )
    }
}

proof fn lemma_first_eligible(mat: Seq<Seq<(int, int)>>, m: int, c: int, k: int, p: int)
    requires
        0 <= k <= p <= mat.len(),
        forall|r: int| k <= r < p ==> !#[trigger] eligible(mat, m, r, c),
        p < mat.len() ==> eligible(mat, m, p, c),
    ensures
        first_eligible(mat, m, c, k) == p,
    decreases p - k,
{
    if k < p {
        lemma_first_eligible(mat, m, c, k + 1, p);
    }
}

/// Column `c` is one in row `p` and zero in every other row.
pub open spec fn column_cleared(mat: Seq<Seq<(int, int)>>, c: int, p: int) -> bool {
    &&& mat[p][c].0 == mat[p][c].1
    &&& forall|r: int| 0 <= r < mat.len() && r != p ==> (#[trigger] mat[r])[c].0 == 0
}

/// The right-hand sides of the pivoted rows among the first `k`, in row order.
pub open spec fn pivot_values(mat: Seq<Seq<(int, int)>>, m: int, k: int) -> Seq<(int, int)>
    decreases k,
{
    if k <= 0 {
        Seq::empty()
    } else if pivoted(mat, m, k - 1) {
        pivot_values(mat, m, k - 1).push(mat[k - 1][m - 1])
    } else {
        pivot_values(mat, m, k - 1)
    }
}

/// Every row that is not pivoted has a zero right-hand side.
pub open spec fn consistent(mat: Seq<Seq<(int, int)>>, m: int) -> bool {
    forall|r: int| 0 <= r < mat.len() ==> pivoted(mat, m, r) || (#[trigger] mat[r])[m - 1].0 == 0
}

pub open spec fn row_view(row: Seq<Rational>) -> Seq<(int, int)> {
    row.map_values(|x: Rational| x@)
}

/// A rectangular matrix of rationals; the last column is the right-hand side.
#[derive(Debug, Clone)]
pub struct LinearSystem {
    matrix: Vec<Vec<Rational>>,
}

fn copy_row(row: &Vec<Rational>) -> (r: Vec<Rational>)
    requires
        forall|j: int| 0 <= j < row@.len() ==> (#[trigger] row@[j]).wf(),
    ensures
        row_view(r@) == row_view(row@),
        r@.len() == row@.len(),
        forall|j: int| 0 <= j < r@.len() ==> (#[trigger] r@[j]).wf(),
{
    let mut r: Vec<Rational> = Vec::new();
    let mut j: usize = 0;
    while j < row.len()
        invariant
            j <= row.len(),
            forall|k: int| 0 <= k < row@.len() ==> (#[trigger] row@[k]).wf(),
            r@.len() == j,
            forall|k: int| 0 <= k < j ==> (#[trigger] r@[k])@ == row@[k]@ && r@[k].wf(),
        decreases row.len() - j,
    {
        r.push(row[j].duplicate());
        j += 1;
    }
    assert(row_view(r@) =~= row_view(row@));
    r
}

impl LinearSystem {
    pub closed spec fn rows(&self) -> Seq<Seq<Rational>> {
        self.matrix@.map_values(|row: Vec<Rational>| row@)
    }

    /// The matrix as fractions.
    pub open spec fn mat(&self) -> Seq<Seq<(int, int)>> {
        self.rows().map_values(|row: Seq<Rational>| row_view(row))
    }

    pub open spec fn n_spec(&self) -> nat {
        self.rows().len()
    }

    pub open spec fn m_spec(&self) -> nat {
        if self.rows().len() == 0 {
            0
        } else {
            self.rows()[0].len()
        }
    }

    /// Rectangular, with well-formed entries.
    pub open spec fn wf(&self) -> bool {
        &&& forall|i: int| 0 <= i < self.rows().len() ==> (#[trigger] self.rows()[i]).len() == self.m_spec()
        &&& forall|i: int, j: int|
            0 <= i < self.rows().len() && 0 <= j < self.m_spec() ==> (#[trigger] self.rows()[i][j]).wf()
    }

    /// The number of rows.
    pub fn n(&self) -> (r: usize)
        ensures
            r == self.n_spec(),
    {
        self.matrix.len()
    }

    /// The number of columns, right-hand side included; zero without rows.
    pub fn m(&self) -> (r: usize)
        ensures
            r == self.m_spec(),
    {
        if self.matrix.len() == 0 {
            return 0;
        }
        self.matrix[0].len()
    }

    pub fn new(matrix: Vec<Vec<Rational>>) -> (r: LinearSystem)
        ensures
            r.rows() == matrix@.map_values(|row: Vec<Rational>| row@),
    {
        LinearSystem { matrix }
    }

    /// The system `left * x = right`: each row of `left` extended by the matching entry of `right`.
    pub fn new_equation_system(left: Vec<Vec<Rational>>, right: Vec<Rational>) -> (r: LinearSystem)
        requires
            left@.len() == right@.len(),
            forall|i: int| 0 <= i < left@.len() ==> (#[trigger] left@[i])@.len() == left@[0]@.len(),
            forall|i: int, j: int| 0 <= i < left@.len() && 0 <= j < left@[i]@.len() ==> (#[trigger] left@[i]@[j]).wf(),
            forall|i: int| 0 <= i < right@.len() ==> (#[trigger] right@[i]).wf(),
        ensures
            r.wf(),
            r.mat().len() == left@.len(),
            forall|i: int| 0 <= i < left@.len() ==> (#[trigger] r.mat()[i]) == row_view(left@[i]@).push(right@[i]@),
    {
        let mut matrix = left;
        let ghost orig = matrix@;
        let mut i: usize = 0;
        while i < matrix.len()
            invariant
                i <= matrix@.len(),
                matrix@.len() == orig.len(),
                orig.len() == right@.len(),
                forall|k: int| 0 <= k < orig.len() ==> (#[trigger] orig[k])@.len() == orig[0]@.len(),
                forall|k: int, j: int| 0 <= k < orig.len() && 0 <= j < orig[k]@.len() ==> (#[trigger] orig[k]@[j]).wf(),
                forall|k: int| 0 <= k < right@.len() ==> (#[trigger] right@[k]).wf(),
                forall|k: int| 0 <= k < i ==> row_view((#[trigger] matrix@[k])@) == row_view(orig[k]@).push(right@[k]@)
                    && matrix@[k]@.len() == orig[k]@.len() + 1
                    && forall|j: int| 0 <= j < matrix@[k]@.len() ==> (#[trigger] matrix@[k]@[j]).wf(),
                forall|k: int| i <= k < matrix@.len() ==> (#[trigger] matrix@[k]) == orig[k],
            decreases matrix.len() - i,
        {
            let mut row: Vec<Rational> = Vec::new();
            matrix.set_and_swap(i, &mut row);
            let x = right[i].duplicate();
            let ghost before = row@;
            row.push(x);
            proof {
                assert(row@ == before.push(x));
                assert(row_view(row@) =~= row_view(before).push(x@));
            }
            matrix.set_and_swap(i, &mut row);
            i += 1;
        }
        let r = LinearSystem { matrix };
        proof {
            assert forall|k: int| 0 <= k < left@.len() implies (#[trigger] r.mat()[k]) == row_view(left@[k]@).push(right@[k]@) by {
                assert(r.mat()[k] == row_view(r.rows()[k]));
                assert(r.rows()[k] == r.matrix@[k]@);
            }
            if left@.len() > 0 {
                assert(r.rows()[0] == r.matrix@[0]@);
                assert forall|k: int| 0 <= k < r.rows().len() implies (#[trigger] r.rows()[k]).len() == r.m_spec() by {
                    assert(r.rows()[k] == r.matrix@[k]@);
                }
                assert forall|k: int, j: int| 0 <= k < r.rows().len() && 0 <= j < r.m_spec() implies (#[trigger] r.rows()[k][j]).wf() by {
                    assert(r.rows()[k] == r.matrix@[k]@);
                }
            }
        }
        r
    }

    proof fn lemma_entry(&self, i: int, j: int)
        requires
            0 <= i < self.rows().len(),
            0 <= j < self.rows()[i].len(),
        ensures
            self.mat()[i][j] == self.matrix@[i]@[j]@,
            self.rows()[i] == self.matrix@[i]@,
            self.mat()[i].len() == self.rows()[i].len(),
            self.mat().len() == self.rows().len(),
    {
    }

    /// Whether row `row` is pivoted.
    pub fn is_pivoted(&self, row: usize) -> (r: bool)
        requires
            self.wf(),
            row < self.n_spec(),
            self.m_spec() >= 1,
        ensures
            r == pivoted(self.mat(), self.m_spec() as int, row as int),
    {
        let m = self.m();
        let n = self.n();
        let ghost mat = self.mat();
        let ghost lim = m - 1;
        proof {
            assert(self.rows()[row as int].len() == m);
        }
        let mut c: usize = 0;
        while c < m - 1 && self.matrix[row][c].is_zero()
            invariant
                self.wf(),
                row < n,
                n == self.n_spec(),
                m == self.m_spec(),
                m >= 1,
                c <= m - 1,
                mat == self.mat(),
                self.rows()[row as int].len() == m,
                first_nonzero(mat[row as int], 0, m - 1) == first_nonzero(mat[row as int], c as int, m - 1),
            decreases m - c,
        {
            proof {
                self.lemma_entry(row as int, c as int);
            }
            c += 1;
        }
        proof {
            self.lemma_entry(row as int, c as int);
            assert(first_nonzero(mat[row as int], c as int, m - 1) == c);
            assert(self.matrix@[row as int]@[c as int].wf());
        }
        if c == m - 1 {
            return false;
        }
        let one = Rational::one();
        if !rat_eq(&self.matrix[row][c], &one) {
            proof {
                assert(mat[row as int][c as int] == self.matrix@[row as int]@[c as int]@);
                assert(mat[row as int][c as int].0 != mat[row as int][c as int].1);
            }
            return false;
        }
        proof {
            assert(mat[row as int][c as int] == self.matrix@[row as int]@[c as int]@);
        }
        let mut i: usize = 0;
        while i < n
            invariant
                self.wf(),
                row < n,
                n == self.n_spec(),
                m == self.m_spec(),
                c < m,
                mat == self.mat(),
                c == first_nonzero(mat[row as int], 0, m - 1),
                mat[row as int][c as int].0 == mat[row as int][c as int].1,
                i <= n,
                forall|k: int| 0 <= k < i && k != row ==> (#[trigger] mat[k])[c as int].0 == 0,
            decreases n - i,
        {
            proof {
                assert(self.rows()[i as int].len() == m);
                self.lemma_entry(i as int, c as int);
            }
            if i != row && !self.matrix[i][c].is_zero() {
                assert(mat[i as int][c as int].0 != 0);
                return false;
            }
            i += 1;
        }
        true
    }

    /// How many rows are pivoted.
    pub fn n_pivoted(&self) -> (r: usize)
        requires
            self.wf(),
            self.n_spec() > 0 ==> self.m_spec() >= 1,
        ensures
            r == count_pivoted(self.mat(), self.m_spec() as int, self.n_spec() as int),
    {
        let n = self.n();
        let mut count: usize = 0;
        let mut i: usize = 0;
        while i < n
            invariant
                self.wf(),
                n == self.n_spec(),
                n > 0 ==> self.m_spec() >= 1,
                i <= n,
                count == count_pivoted(self.mat(), self.m_spec() as int, i as int),
                count <= i,
            decreases n - i,
        {
            if self.is_pivoted(i) {
                count += 1;
            }
            i += 1;
        }
        count
    }

    /// Whether more rows are pivoted than there are unknowns less one.
    pub fn is_underdetermined(&self) -> (r: bool)
        requires
            self.wf(),
            self.n_spec() > 0 ==> self.m_spec() >= 1,
        ensures
            r == (count_pivoted(self.mat(), self.m_spec() as int, self.n_spec() as int) > self.m_spec() - 1),
    {
        self.n_pivoted() >= self.m()
    }

    /// Whether fewer rows are pivoted than there are unknowns less one.
    pub fn is_overdetermined(&self) -> (r: bool)
        requires
            self.wf(),
            self.n_spec() > 0 ==> self.m_spec() >= 1,
        ensures
            r == (count_pivoted(self.mat(), self.m_spec() as int, self.n_spec() as int) < self.m_spec() - 1),
    {
        let m = self.m();
        m > 0 && self.n_pivoted() < m - 1
    }

    /// Row `i` multiplied by `factor`.
    fn scale_row(&mut self, i: usize, factor: &Rational)
        requires
            old(self).wf(),
            i < old(self).n_spec(),
            factor.wf(),
        ensures
            final(self).wf(),
            final(self).n_spec() == old(self).n_spec(),
            final(self).m_spec() == old(self).m_spec(),
            forall|k: int| 0 <= k < old(self).n_spec() && k != i ==> (#[trigger] final(self).mat()[k]) == old(self).mat()[k],
            forall|j: int| 0 <= j < old(self).m_spec() ==> frac_eq(
                #[trigger] final(self).mat()[i as int][j],
                frac_mul(old(self).mat()[i as int][j], factor@),
            ),
    {
        let ghost before = *self;
        let m = self.m();
        let mut row: Vec<Rational> = Vec::new();
        self.matrix.set_and_swap(i, &mut row);
        proof {
            assert(row@ == before.rows()[i as int]);
        }
        let mut out: Vec<Rational> = Vec::new();
        let mut j: usize = 0;
        while j < m
            invariant
                j <= m,
                m == before.m_spec(),
                row@ == before.rows()[i as int],
                row@.len() == m,
                before.wf(),
                i < before.n_spec(),
                factor.wf(),
                out@.len() == j,
                forall|k: int| 0 <= k < j ==> (#[trigger] out@[k]).wf() && frac_eq(
                    out@[k]@,
                    frac_mul(row@[k]@, factor@),
                ),
            decreases m - j,
        {
            assert(row@[j as int].wf());
            let x = rat_mul(&row[j], factor);
            out.push(x);
            j += 1;
        }
        self.matrix.set_and_swap(i, &mut out);
        proof {
            assert(self.matrix@ == before.matrix@.update(i as int, self.matrix@[i as int]));
            assert forall|k: int| 0 <= k < before.n_spec() && k != i implies (#[trigger] self.mat()[k]) == before.mat()[k] by {
                assert(self.matrix@[k] == before.matrix@[k]);
            }
            assert forall|j: int| 0 <= j < m implies frac_eq(
                #[trigger] self.mat()[i as int][j],
                frac_mul(before.mat()[i as int][j], factor@),
            ) by {
                assert(self.mat()[i as int][j] == self.matrix@[i as int]@[j]@);
                assert(before.mat()[i as int][j] == row@[j]@);
            }
            if i == 0 {
                assert(self.rows()[0].len() == m);
            } else {
                assert(self.rows()[0] == before.rows()[0]);
            }
            assert forall|k: int| 0 <= k < self.rows().len() implies (#[trigger] self.rows()[k]).len() == self.m_spec() by {
                if k != i {
                    assert(self.rows()[k] == before.rows()[k]);
                }
            }
            assert forall|k: int, j: int| 0 <= k < self.rows().len() && 0 <= j < self.m_spec() implies (#[trigger] self.rows()[k][j]).wf() by {
                if k != i {
                    assert(self.rows()[k] == before.rows()[k]);
                }
            }
        }
    }

    /// Row `dst` plus `factor` times row `src`.
    fn add_row(&mut self, src: usize, dst: usize, factor: &Rational)
        requires
            old(self).wf(),
            src < old(self).n_spec(),
            dst < old(self).n_spec(),
            src != dst,
            factor.wf(),
        ensures
            final(self).wf(),
            final(self).n_spec() == old(self).n_spec(),
            final(self).m_spec() == old(self).m_spec(),
            forall|k: int| 0 <= k < old(self).n_spec() && k != dst ==> (#[trigger] final(self).mat()[k]) == old(self).mat()[k],
            forall|j: int| 0 <= j < old(self).m_spec() ==> frac_eq(
                #[trigger] final(self).mat()[dst as int][j],
                frac_add(old(self).mat()[dst as int][j], frac_mul(old(self).mat()[src as int][j], factor@)),
            ),
    {
        let ghost before = *self;
        let m = self.m();
        let mut row: Vec<Rational> = Vec::new();
        self.matrix.set_and_swap(dst, &mut row);
        proof {
            assert(row@ == before.rows()[dst as int]);
            assert(self.matrix@[src as int] == before.matrix@[src as int]);
            assert(self.matrix@[src as int]@ == before.rows()[src as int]);
        }
        let mut out: Vec<Rational> = Vec::new();
        let mut j: usize = 0;
        while j < m
            invariant
                j <= m,
                m == before.m_spec(),
                row@ == before.rows()[dst as int],
                self.matrix@[src as int]@ == before.rows()[src as int],
                src < self.matrix@.len(),
                before.wf(),
                src < before.n_spec(),
                dst < before.n_spec(),
                factor.wf(),
                out@.len() == j,
                forall|k: int| 0 <= k < j ==> (#[trigger] out@[k]).wf() && frac_eq(
                    out@[k]@,
                    frac_add(row@[k]@, frac_mul(before.rows()[src as int][k]@, factor@)),
                ),
            decreases m - j,
        {
            assert(row@[j as int].wf());
            assert(before.rows()[src as int][j as int].wf());
            let p = rat_mul(&self.matrix[src][j], factor);
            let x = rat_add(&row[j], &p);
            proof {
                let a = row@[j as int]@;
                let b = frac_mul(before.rows()[src as int][j as int]@, factor@);
                crate::rational::lemma_frac_congr(a, a, p@, b);
                assert(a.1 * p@.1 != 0) by (nonlinear_arith)
                    requires a.1 > 0, p@.1 > 0;
                crate::rational::lemma_frac_eq_trans(x@, frac_add(a, p@), frac_add(a, b));
            }
            out.push(x);
            j += 1;
        }
        self.matrix.set_and_swap(dst, &mut out);
        proof {
            assert forall|k: int| 0 <= k < before.n_spec() && k != dst implies (#[trigger] self.mat()[k]) == before.mat()[k] by {
                assert(self.matrix@[k] == before.matrix@[k]);
            }
            assert forall|j: int| 0 <= j < m implies frac_eq(
                #[trigger] self.mat()[dst as int][j],
                frac_add(before.mat()[dst as int][j], frac_mul(before.mat()[src as int][j], factor@)),
            ) by {
                assert(self.mat()[dst as int][j] == self.matrix@[dst as int]@[j]@);
                assert(before.mat()[dst as int][j] == row@[j]@);
                assert(before.mat()[src as int][j] == before.rows()[src as int][j]@);
            }
            if dst == 0 {
                assert(self.rows()[0].len() == m);
            } else {
                assert(self.rows()[0] == before.rows()[0]);
            }
            assert forall|k: int| 0 <= k < self.rows().len() implies (#[trigger] self.rows()[k]).len() == self.m_spec() by {
                if k != dst {
                    assert(self.rows()[k] == before.rows()[k]);
                }
            }
            assert forall|k: int, j: int| 0 <= k < self.rows().len() && 0 <= j < self.m_spec() implies (#[trigger] self.rows()[k][j]).wf() by {
                if k != dst {
                    assert(self.rows()[k] == before.rows()[k]);
                }
            }
        }
    }

    /// Rows `a` and `b` exchanged.
    fn swap_rows(&mut self, a: usize, b: usize)
        requires
            old(self).wf(),
            a < old(self).n_spec(),
            b < old(self).n_spec(),
        ensures
            final(self).wf(),
            final(self).n_spec() == old(self).n_spec(),
            final(self).m_spec() == old(self).m_spec(),
            final(self).mat() == old(self).mat().update(a as int, old(self).mat()[b as int]).update(
                b as int,
                old(self).mat()[a as int],
            ),
    {
        let ghost before = *self;
        let mut ra: Vec<Rational> = Vec::new();
        self.matrix.set_and_swap(a, &mut ra);
        let mut rb: Vec<Rational> = Vec::new();
        self.matrix.set_and_swap(b, &mut rb);
        if a == b {
            self.matrix.set_and_swap(a, &mut ra);
        } else {
            self.matrix.set_and_swap(a, &mut rb);
            self.matrix.set_and_swap(b, &mut ra);
        }
        proof {
            assert(self.mat() =~= before.mat().update(a as int, before.mat()[b as int]).update(
                b as int,
                before.mat()[a as int],
            ));
            assert(self.rows() =~= before.rows().update(a as int, before.rows()[b as int]).update(
                b as int,
                before.rows()[a as int],
            ));
            assert(self.rows()[0].len() == before.m_spec());
            assert forall|k: int| 0 <= k < self.rows().len() implies (#[trigger] self.rows()[k]).len() == self.m_spec() by {
                if k == a {
                    assert(before.rows()[b as int].len() == before.m_spec());
                } else if k == b {
                    assert(before.rows()[a as int].len() == before.m_spec());
                } else {
                    assert(before.rows()[k].len() == before.m_spec());
                }
            }
            assert forall|k: int, j: int| 0 <= k < self.rows().len() && 0 <= j < self.m_spec() implies (#[trigger] self.rows()[k][j]).wf() by {
                if k == a {
                    assert(before.rows()[b as int][j].wf());
                } else if k == b {
                    assert(before.rows()[a as int][j].wf());
                } else {
                    assert(before.rows()[k][j].wf());
                }
            }
        }
    }

    /// Eliminates `column`: the first row that is neither pivoted nor zero there becomes the
    /// next pivoted row, scaled to one in that column, and the column is cleared in every
    /// other row. Nothing changes if there is no such row.
    pub fn reduce_column(&mut self, column: usize)
        requires
            old(self).wf(),
            column < old(self).m_spec(),
        ensures
            final(self).wf(),
            final(self).n_spec() == old(self).n_spec(),
            final(self).m_spec() == old(self).m_spec(),
            (exists|r: int| 0 <= r < old(self).n_spec() && #[trigger] eligible(old(self).mat(), old(self).m_spec() as int, r, column as int))
                ==> exists|p: int| 0 <= p < final(self).n_spec() && #[trigger] column_cleared(final(self).mat(), column as int, p),
            !(exists|r: int| 0 <= r < old(self).n_spec() && #[trigger] eligible(old(self).mat(), old(self).m_spec() as int, r, column as int))
                ==> final(self).mat() == old(self).mat(),
            meq(final(self).mat(), step_col(old(self).mat(), old(self).m_spec() as int, column as int)),
    {
        let n = self.n();
        let ghost m = self.m_spec();
        let ghost mm = self.mat();
        let mut pivot_row: usize = 0;
        while pivot_row < n && (self.is_pivoted(pivot_row) || self.matrix[pivot_row][column].is_zero())
            invariant
                self.wf(),
                n == self.n_spec(),
                m == self.m_spec(),
                column < m,
                pivot_row <= n,
                forall|r: int| 0 <= r < pivot_row ==> !#[trigger] eligible(self.mat(), m as int, r, column as int),
            decreases n - pivot_row,
        {
            proof {
                assert(self.rows()[pivot_row as int].len() == m);
                self.lemma_entry(pivot_row as int, column as int);
            }
            pivot_row += 1;
        }
        if pivot_row == n {
            proof {
                lemma_first_eligible(mm, m as int, column as int, 0, n as int);
                assert forall|r: int| 0 <= r < mm.len() implies (#[trigger] mm[r]).len() == mm[r].len() by {}
            }
            return;
        }
        proof {
            assert(self.rows()[pivot_row as int].len() == m);
            self.lemma_entry(pivot_row as int, column as int);
            assert(eligible(self.mat(), m as int, pivot_row as int, column as int));
            lemma_first_eligible(mm, m as int, column as int, 0, pivot_row as int);
        }
        let np = self.n_pivoted();
        proof {
            lemma_count_below(self.mat(), m as int, n as int, pivot_row as int);
        }
        if pivot_row != np {
            self.swap_rows(pivot_row, np);
        }
        proof {
            assert(self.rows()[np as int].len() == m);
            assert(self.mat()[np as int][column as int] == self.matrix@[np as int]@[column as int]@);
        }
        let ghost sm = self.mat();
        let ghost spec = step_col(mm, m as int, column as int);
        let ghost invs = frac_div((1, 1), sm[np as int][column as int]);
        let ghost pv = sm[np as int].map_values(|x: (int, int)| frac_mul(x, invs));
        let scale = self.matrix[np][column].duplicate();
        assert(scale.wf());
        assert(scale.num() != 0);
        let one = Rational::one();
        let inv = rat_div(&one, &scale);
        self.scale_row(np, &inv);
        proof {
            lemma_scaled_to_one(self.mat()[np as int][column as int], scale@, inv@);
            assert(sm.len() == n);
            assert(spec[np as int] == pv);
            assert forall|j: int| 0 <= j < m implies frac_eq(#[trigger] self.mat()[np as int][j], pv[j]) by {
                assert(sm[np as int].len() == m);
                let x = sm[np as int][j];
                lemma_frac_congr(x, x, inv@, invs);
                assert(x.1 * inv@.1 != 0) by (nonlinear_arith)
                    requires x.1 > 0, inv@.1 > 0;
                lemma_frac_eq_trans(self.mat()[np as int][j], frac_mul(x, inv@), frac_mul(x, invs));
            }
        }
        let mut row: usize = 0;
        while row < n
            invariant
                self.wf(),
                n == self.n_spec(),
                m == self.m_spec(),
                column < m,
                np < n,
                row <= n,
                self.mat()[np as int][column as int].0 == self.mat()[np as int][column as int].1,
                self.mat()[np as int][column as int].1 > 0,
                forall|r: int| 0 <= r < row && r != np ==> (#[trigger] self.mat()[r])[column as int].0 == 0,
                sm.len() == n,
                spec == step_col(mm, m as int, column as int),
                spec.len() == n,
                pv.len() == m,
                spec[np as int] == pv,
                forall|j: int| 0 <= j < m ==> frac_eq(#[trigger] self.mat()[np as int][j], pv[j]),
                forall|r: int| row <= r < n && r != np ==> #[trigger] self.mat()[r] == sm[r],
                forall|r: int| 0 <= r < n && r != np ==> (#[trigger] spec[r]).len() == m,
                forall|r: int, j: int| 0 <= r < row && r != np && 0 <= j < m ==> frac_eq(#[trigger] self.mat()[r][j], spec[r][j]),
                forall|r: int| 0 <= r < n && r != np && sm[r][column as int].0 != 0 ==> #[trigger] spec[r] == Seq::new(
                    sm[r].len(),
                    |j: int| frac_add(sm[r][j], frac_mul(pv[j], (-sm[r][column as int].0, sm[r][column as int].1))),
                ),
                forall|r: int| 0 <= r < n && r != np && sm[r][column as int].0 == 0 ==> #[trigger] spec[r] == sm[r],
            decreases n - row,
        {
            proof {
                assert(self.rows()[row as int].len() == m);
                assert(self.rows()[row as int][column as int].wf());
                self.lemma_entry(row as int, column as int);
            }
            if row != np && !self.matrix[row][column].is_zero() {
                let ghost before = self.mat();
                let factor = rat_neg(&self.matrix[row][column]);
                self.add_row(np, row, &factor);
                proof {
                    let c = sm[row as int][column as int];
                    assert(before[row as int] == sm[row as int]);
                    assert(before[row as int][column as int] == c);
                    assert forall|j: int| 0 <= j < m implies frac_eq(#[trigger] self.mat()[row as int][j], spec[row as int][j]) by {
                        let x = before[np as int][j];
                        let y = sm[row as int][j];
                        let negc = (-c.0, c.1);
                        lemma_frac_congr(x, pv[j], factor@, negc);
                        lemma_frac_congr(y, y, frac_mul(x, factor@), frac_mul(pv[j], negc));
                        assert(y.1 * (x.1 * factor@.1) != 0) by (nonlinear_arith)
                            requires y.1 > 0, x.1 > 0, factor@.1 > 0;
                        lemma_frac_eq_trans(self.mat()[row as int][j], frac_add(y, frac_mul(x, factor@)), frac_add(y, frac_mul(pv[j], negc)));
                    }
                    assert forall|r: int| row + 1 <= r < n && r != np implies #[trigger] self.mat()[r] == sm[r] by {
                        assert(self.mat()[r] == before[r]);
                    }
                    assert forall|r: int, j: int| 0 <= r < row + 1 && r != np && 0 <= j < m implies frac_eq(#[trigger] self.mat()[r][j], spec[r][j]) by {
                        if r != row {
                            assert(self.mat()[r] == before[r]);
                        }
                    }
                    lemma_cancelled(
                        self.mat()[row as int][column as int],
                        before[row as int][column as int],
                        before[np as int][column as int],
                        factor@,
                    );
                    assert forall|r: int| 0 <= r < row + 1 && r != np implies (#[trigger] self.mat()[r])[column as int].0 == 0 by {
                        if r != row {
                            assert(self.mat()[r] == before[r]);
                        }
                    }
                }
            } else {
                proof {
                    if row != np {
                        assert(self.mat()[row as int] == sm[row as int]);
                        assert(sm[row as int][column as int].0 == 0);
                        assert(spec[row as int] == sm[row as int]);
                    }
                    assert forall|r: int, j: int| 0 <= r < row + 1 && r != np && 0 <= j < m implies frac_eq(#[trigger] self.mat()[r][j], spec[r][j]) by {
                        if r == row {
                            assert(self.mat()[r] == spec[r]);
                        }
                    }
                }
            }
            row += 1;
        }
        proof {
            assert(column_cleared(self.mat(), column as int, np as int));
            assert(self.mat().len() == spec.len());
            assert forall|r: int| 0 <= r < self.mat().len() implies (#[trigger] self.mat()[r]).len() == spec[r].len() by {
                assert(self.rows()[r].len() == m);
            }
            assert forall|r: int, j: int| 0 <= r < self.mat().len() && 0 <= j < self.mat()[r].len() implies frac_eq(#[trigger] self.mat()[r][j], spec[r][j]) by {
                assert(self.rows()[r].len() == m);
            }
            assert(meq(self.mat(), spec));
        }
    }

    /// Reduces the columns in order, up to the smaller of the row and column counts; then, if
    /// every row that is not pivoted has a zero right-hand side, returns the right-hand sides
    /// of the pivoted rows in row order, else `None`.
    pub fn solve(&mut self) -> (r: Option<Vec<Rational>>)
        requires
            old(self).wf(),
            old(self).n_spec() > 0 ==> old(self).m_spec() >= 1,
        ensures
            final(self).wf(),
            final(self).n_spec() == old(self).n_spec(),
            final(self).m_spec() == old(self).m_spec(),
            r is Some <==> consistent(final(self).mat(), final(self).m_spec() as int),
            r is Some ==> row_view(r->0@) == pivot_values(
                final(self).mat(),
                final(self).m_spec() as int,
                final(self).n_spec() as int,
            ),
            r is Some ==> forall|i: int| 0 <= i < r->0@.len() ==> (#[trigger] r->0@[i]).wf(),
            exists|ms: Seq<Seq<Seq<(int, int)>>>| #[trigger] elimination_steps(ms, old(self).m_spec() as int)
                && ms.len() == (if old(self).n_spec() < old(self).m_spec() { old(self).n_spec() } else { old(self).m_spec() }) + 1
                && ms[0] == old(self).mat() && ms.last() == final(self).mat(),
    {
        let n = self.n();
        let m = self.m();
        let lim = if n < m {
            n
        } else {
            m
        };
        let ghost mut ms: Seq<Seq<Seq<(int, int)>>> = seq![self.mat()];
        let mut col: usize = 0;
        while col < lim
            invariant
                self.wf(),
                n == self.n_spec(),
                m == self.m_spec(),
                n > 0 ==> m >= 1,
                n == old(self).n_spec(),
                m == old(self).m_spec(),
                lim <= m,
                col <= lim,
                ms.len() == col + 1,
                ms[0] == old(self).mat(),
                ms.last() == self.mat(),
                elimination_steps(ms, m as int),
            decreases lim - col,
        {
            let ghost prev = ms;
            self.reduce_column(col);
            proof {
                ms = ms.push(self.mat());
                assert forall|k: int| 0 <= k < ms.len() - 1 implies meq(#[trigger] ms[k + 1], step_col(ms[k], m as int, k)) by {
                    if k < prev.len() - 1 {
                        assert(ms[k + 1] == prev[k + 1]);
                        assert(ms[k] == prev[k]);
                    }
                }
            }
            col += 1;
        }
        assert(elimination_steps(ms, m as int));
        proof {
            if n > 0 {
                assert(self.rows()[0].len() == m);
                assert(self.mat()[0].len() == m);
            }
        }
        if n == 0 {
            let empty: Vec<Rational> = Vec::new();
            proof {
                assert(row_view(empty@) =~= Seq::<(int, int)>::empty());
            }
            return Some(empty);
        }
        let ghost mat = self.mat();
        let mut result: Vec<Rational> = Vec::new();
        let mut row: usize = 0;
        while row < n
            invariant
                self.wf(),
                n == self.n_spec(),
                m == self.m_spec(),
                m >= 1,
                n == old(self).n_spec(),
                m == old(self).m_spec(),
                mat == self.mat(),
                ms.len() == lim + 1,
                lim == (if n < m { n } else { m }),
                ms[0] == old(self).mat(),
                ms.last() == self.mat(),
                elimination_steps(ms, m as int),
                row <= n,
                row_view(result@) == pivot_values(mat, m as int, row as int),
                forall|i: int| 0 <= i < result@.len() ==> (#[trigger] result@[i]).wf(),
                forall|k: int| 0 <= k < row ==> pivoted(mat, m as int, k) || (#[trigger] mat[k])[m - 1].0 == 0,
            decreases n - row,
        {
            proof {
                assert(self.rows()[row as int].len() == m);
                assert(mat[row as int][m - 1] == self.matrix@[row as int]@[m - 1]@);
                assert(self.rows()[row as int][m - 1].wf());
            }
            if self.is_pivoted(row) {
                let x = self.matrix[row][m - 1].duplicate();
                let ghost before = result@;
                result.push(x);
                proof {
                    assert(result@ == before.push(x));
                    assert(row_view(result@) =~= row_view(before).push(x@));
                }
            } else if !self.matrix[row][m - 1].is_zero() {
                return None;
            }
            row += 1;
        }
        Some(result)
    }
}

/// If some row among the first `k` is not pivoted, fewer than `k` are.
proof fn lemma_count_below(mat: Seq<Seq<(int, int)>>, m: int, k: int, r: int)
    requires
        0 <= r < k,
        !pivoted(mat, m, r),
    ensures
        count_pivoted(mat, m, k) < k,
    decreases k,
{
    lemma_count_le(mat, m, k - 1);
    if r < k - 1 {
        lemma_count_below(mat, m, k - 1, r);
    }
}

proof fn lemma_count_le(mat: Seq<Seq<(int, int)>>, m: int, k: int)
    ensures
        count_pivoted(mat, m, k) <= if k < 0 {
            0
        } else {
            k
        },
    decreases k,
{
    if k > 0 {
        lemma_count_le(mat, m, k - 1);
    }
}

/// One right-hand side per pivoted row.
pub proof fn lemma_pivot_values_len(mat: Seq<Seq<(int, int)>>, m: int, k: int)
    ensures
        pivot_values(mat, m, k).len() == count_pivoted(mat, m, k),
    decreases k,
{
    if k > 0 {
        lemma_pivot_values_len(mat, m, k - 1);
    }
}

/// A value times its reciprocal is one.
proof fn lemma_scaled_to_one(x: (int, int), a: (int, int), b: (int, int))
    requires
        x.1 > 0,
        a.1 > 0,
        a.0 != 0,
        b.1 > 0,
        frac_eq(x, frac_mul(a, b)),
        frac_eq(b, frac_div((1, 1), a)),
    ensures
        x.0 == x.1,
{
    assert(b.0 * a.0 == a.1 * b.1) by (nonlinear_arith)
        requires
            b.0 * (1 * a.0) == (1 * a.1) * b.1,
    ;
    assert(x.0 * (a.1 * b.1) == (a.0 * b.0) * x.1);
    assert((x.0 - x.1) * (a.1 * b.1) == 0) by (nonlinear_arith)
        requires
            x.0 * (a.1 * b.1) == (a.0 * b.0) * x.1,
            b.0 * a.0 == a.1 * b.1,
    ;
    assert(a.1 * b.1 != 0) by (nonlinear_arith)
        requires
            a.1 > 0,
            b.1 > 0,
    ;
    assert(x.0 - x.1 == 0) by (nonlinear_arith)
        requires
            (x.0 - x.1) * (a.1 * b.1) == 0,
            a.1 * b.1 != 0,
    ;
}

/// Adding the negated entry times a pivot equal to one leaves zero.
proof fn lemma_cancelled(y: (int, int), c: (int, int), x: (int, int), f: (int, int))
    requires
        y.1 > 0,
        c.1 > 0,
        x.1 > 0,
        f.1 > 0,
        x.0 == x.1,
        frac_eq(f, (-c.0, c.1)),
        frac_eq(y, frac_add(c, frac_mul(x, f))),
    ensures
        y.0 == 0,
{
    let t = frac_add(c, frac_mul(x, f));
    assert(t.0 == c.0 * (x.1 * f.1) + (x.0 * f.0) * c.1);
    assert(f.0 * c.1 == -c.0 * f.1);
    assert(t.0 == 0) by (nonlinear_arith)
        requires
            t.0 == c.0 * (x.1 * f.1) + (x.0 * f.0) * c.1,
            f.0 * c.1 == -c.0 * f.1,
            x.0 == x.1,
    ;
    assert(t.1 != 0) by (nonlinear_arith)
        requires
            t.1 == c.1 * (x.1 * f.1),
            c.1 > 0,
            x.1 > 0,
            f.1 > 0,
    ;
    assert(y.0 * t.1 == 0) by (nonlinear_arith)
        requires
            y.0 * t.1 == t.0 * y.1,
            t.0 == 0,
    ;
    assert(y.0 == 0) by (nonlinear_arith)
        requires
            y.0 * t.1 == 0,
            t.1 != 0,
    ;
}

} // verus!
