//! The mathematics of rank: rows, kernels and dependent columns.
//!
//! A matrix of rational numbers is modelled row by row. A row is a sequence of
//! integer numerators over one common nonzero denominator, so its entry `k`
//! is the number `nums[k] / den`. A column vector of integers lies in the
//! kernel of the matrix when every row sends it to zero; because the
//! denominator of a row scales the whole row, only the numerators matter.
//!
//! Column `j` is dependent when some kernel vector is nonzero at `j` and zero
//! after `j`: the column is then a combination of the columns before it. The
//! rank is the number of columns that are not dependent.

use crate::arith::{
    lemma_distribute, lemma_product_nonzero, lemma_proportional_zero, lemma_regroup,
};
use vstd::prelude::*;
use vstd::set_lib::{lemma_int_range, set_int_range};

verus! {

/// A row of rational numbers over a common denominator.
pub struct ScaledRow {
    pub nums: Seq<int>,
    pub den: int,
}

impl ScaledRow {
    /// The row has `cols` entries and a nonzero denominator.
    pub open spec fn valid(self, cols: int) -> bool {
        self.nums.len() == cols && self.den != 0
    }

    /// Entry `k` is the number zero.
    pub open spec fn zero_at(self, k: int) -> bool {
        self.nums[k] == 0
    }

    /// Entry `k` is the number one.
    pub open spec fn one_at(self, k: int) -> bool {
        self.nums[k] == self.den
    }

    /// Every entry is zero.
    pub open spec fn is_zero_row(self) -> bool {
        forall|k: int| 0 <= k < self.nums.len() ==> self.nums[k] == 0
    }

    /// Both rows hold the same rational numbers.
    pub open spec fn same_as(self, other: ScaledRow) -> bool {
        &&& self.nums.len() == other.nums.len()
        &&& forall|k: int|
            0 <= k < self.nums.len() ==> #[trigger] self.nums[k] * other.den == other.nums[k]
                * self.den
    }

    /// The row divided by its entry in column `col`.
    pub open spec fn divided_by_entry(self, col: int) -> ScaledRow {
        ScaledRow { nums: self.nums, den: self.nums[col] }
    }

    /// The row minus its entry in column `col` times the row `source`.
    pub open spec fn minus_multiple_of(self, source: ScaledRow, col: int) -> ScaledRow {
        ScaledRow {
            nums: Seq::new(
                self.nums.len(),
                |k: int| self.nums[k] * source.den - self.nums[col] * source.nums[k],
            ),
            den: self.den * source.den,
        }
    }
}

/// Every row has `cols` entries and a nonzero denominator.
pub open spec fn valid_rows(m: Seq<ScaledRow>, cols: int) -> bool {
    forall|i: int| 0 <= i < m.len() ==> (#[trigger] m[i]).valid(cols)
}

/// The sum of `x[k] * c[k]` over the first `n` positions.
pub open spec fn idot(x: Seq<int>, c: Seq<int>, n: nat) -> int
    decreases n,
{
    if n == 0 {
        0
    } else {
        idot(x, c, (n - 1) as nat) + x[n - 1] * c[n - 1]
    }
}

/// The row sends the column vector `c` to zero.
pub open spec fn annihilates(c: Seq<int>, row: ScaledRow) -> bool {
    idot(row.nums, c, c.len()) == 0
}

/// Every row of `m` sends `c` to zero.
pub open spec fn in_kernel(m: Seq<ScaledRow>, c: Seq<int>) -> bool {
    forall|i: int| 0 <= i < m.len() ==> annihilates(c, #[trigger] m[i])
}

/// Both matrices have the same kernel, hence the same row space.
pub open spec fn same_kernel(a: Seq<ScaledRow>, b: Seq<ScaledRow>, cols: int) -> bool {
    forall|c: Seq<int>|
        #![trigger in_kernel(a, c)]
        #![trigger in_kernel(b, c)]
        c.len() == cols ==> in_kernel(a, c) == in_kernel(b, c)
}

/// `c` shows that column `j` is a combination of the columns before it.
pub open spec fn depends_by(m: Seq<ScaledRow>, cols: int, j: int, c: Seq<int>) -> bool {
    &&& c.len() == cols
    &&& in_kernel(m, c)
    &&& c[j] != 0
    &&& forall|k: int| j < k < cols ==> c[k] == 0
}

/// Column `j` is a combination of the columns before it.
pub open spec fn dependent_column(m: Seq<ScaledRow>, cols: int, j: int) -> bool {
    exists|c: Seq<int>| depends_by(m, cols, j, c)
}

/// The columns that are no combination of the columns before them.
pub open spec fn independent_columns(m: Seq<ScaledRow>, cols: int) -> Set<int> {
    Set::new(|j: int| 0 <= j < cols && !dependent_column(m, cols, j))
}

/// The rank of a matrix with `cols` columns.
pub open spec fn rank_of(m: Seq<ScaledRow>, cols: int) -> nat {
    independent_columns(m, cols).len()
}

/// Proportional sequences have proportional sums.
pub proof fn lemma_idot_proportional(x: Seq<int>, y: Seq<int>, c: Seq<int>, p: int, q: int, n: nat)
    requires
        forall|k: int| 0 <= k < n ==> #[trigger] x[k] * p == y[k] * q,
    ensures
        idot(x, c, n) * p == idot(y, c, n) * q,
    decreases n,
{
    if n > 0 {
        let m = (n - 1) as nat;
        lemma_idot_proportional(x, y, c, p, q, m);
        let (sx, sy, xk, yk, ck) = (idot(x, c, m), idot(y, c, m), x[n - 1], y[n - 1], c[n - 1]);
        assert(xk * p == yk * q);
        lemma_distribute(sx, xk * ck, p);
        lemma_distribute(sy, yk * ck, q);
        lemma_regroup(xk, ck, p);
        lemma_regroup(yk, ck, q);
    }
}

/// The sum over `t * a - b * s` is `a` times the sum over `t` minus `b` times
/// the sum over `s`.
pub proof fn lemma_idot_combined(
    e: Seq<int>,
    t: Seq<int>,
    s: Seq<int>,
    c: Seq<int>,
    a: int,
    b: int,
    n: nat,
)
    requires
        forall|k: int| 0 <= k < n ==> #[trigger] e[k] == t[k] * a - b * s[k],
    ensures
        idot(e, c, n) == idot(t, c, n) * a - b * idot(s, c, n),
    decreases n,
{
    if n > 0 {
        let m = (n - 1) as nat;
        lemma_idot_combined(e, t, s, c, a, b, m);
        let (st, ss, tk, sk, ck) = (idot(t, c, m), idot(s, c, m), t[n - 1], s[n - 1], c[n - 1]);
        assert(e[n - 1] == tk * a - b * sk);
        lemma_distribute(tk * a, b * sk, ck);
        lemma_regroup(tk, a, ck);
        lemma_regroup(b, sk, ck);
        lemma_distribute(st, tk * ck, a);
        lemma_distribute(ss, sk * ck, b);
    } else {
        assert(b * 0 == 0);
    }
}

/// A sum whose terms vanish outside the positions `a` and `b`.
pub proof fn lemma_idot_sparse(x: Seq<int>, c: Seq<int>, n: nat, a: int, b: int)
    requires
        a != b,
        forall|k: int| 0 <= k < n && k != a && k != b ==> x[k] == 0 || c[k] == 0,
    ensures
        idot(x, c, n) == (if 0 <= a < n {
            x[a] * c[a]
        } else {
            0
        }) + (if 0 <= b < n {
            x[b] * c[b]
        } else {
            0
        }),
    decreases n,
{
    if n > 0 {
        lemma_idot_sparse(x, c, (n - 1) as nat, a, b);
        let (xk, ck) = (x[n - 1], c[n - 1]);
        if n - 1 != a && n - 1 != b {
            assert(xk * ck == 0) by (nonlinear_arith)
                requires
                    xk == 0 || ck == 0,
            ;
        }
    }
}

/// Rows that hold the same numbers send the same vectors to zero.
pub proof fn lemma_same_row_annihilates(x: ScaledRow, y: ScaledRow, c: Seq<int>)
    requires
        x.valid(c.len() as int),
        y.valid(c.len() as int),
        x.same_as(y),
    ensures
        annihilates(c, x) == annihilates(c, y),
{
    lemma_idot_proportional(x.nums, y.nums, c, y.den, x.den, c.len());
    lemma_proportional_zero(idot(x.nums, c, c.len()), y.den, idot(y.nums, c, c.len()), x.den);
}

/// Replacing a row by one that holds the same numbers keeps the kernel.
pub proof fn lemma_kernel_row_replaced(a: Seq<ScaledRow>, b: Seq<ScaledRow>, cols: int, i: int)
    requires
        0 <= i < a.len(),
        valid_rows(a, cols),
        valid_rows(b, cols),
        b =~= a.update(i, b[i]),
        b[i].nums =~= a[i].nums || b[i].same_as(a[i]),
    ensures
        same_kernel(a, b, cols),
{
    assert forall|c: Seq<int>| c.len() == cols implies in_kernel(a, c) == in_kernel(b, c) by {
        if b[i].same_as(a[i]) {
            lemma_same_row_annihilates(b[i], a[i], c);
        }
        assert(annihilates(c, a[i]) == annihilates(c, b[i]));
        if in_kernel(a, c) {
            assert forall|r: int| 0 <= r < b.len() implies annihilates(c, #[trigger] b[r]) by {
                assert(annihilates(c, a[r]));
            }
        }
        if in_kernel(b, c) {
            assert forall|r: int| 0 <= r < a.len() implies annihilates(c, #[trigger] a[r]) by {
                assert(annihilates(c, b[r]));
            }
        }
    }
}

/// Dividing a row by one of its nonzero entries keeps the kernel.
pub proof fn lemma_kernel_row_divided(
    a: Seq<ScaledRow>,
    b: Seq<ScaledRow>,
    cols: int,
    i: int,
    col: int,
)
    requires
        0 <= i < a.len(),
        0 <= col < cols,
        valid_rows(a, cols),
        valid_rows(b, cols),
        a[i].nums[col] != 0,
        b =~= a.update(i, b[i]),
        b[i].same_as(a[i].divided_by_entry(col)),
    ensures
        same_kernel(a, b, cols),
{
    let middle = a.update(i, a[i].divided_by_entry(col));
    assert(a[i].valid(cols));
    assert(valid_rows(middle, cols)) by {
        assert forall|r: int| 0 <= r < middle.len() implies (#[trigger] middle[r]).valid(cols) by {
            if r != i {
                assert(a[r].valid(cols));
            }
        }
    }
    lemma_kernel_row_replaced(a, middle, cols, i);
    assert(b =~= middle.update(i, b[i]));
    lemma_kernel_row_replaced(middle, b, cols, i);
    lemma_same_kernel_transitive(a, middle, b, cols);
}

/// Subtracting a multiple of another row keeps the kernel.
pub proof fn lemma_kernel_row_eliminated(
    a: Seq<ScaledRow>,
    b: Seq<ScaledRow>,
    cols: int,
    target: int,
    source: int,
    col: int,
)
    requires
        0 <= target < a.len(),
        0 <= source < a.len(),
        target != source,
        0 <= col < cols,
        valid_rows(a, cols),
        valid_rows(b, cols),
        b =~= a.update(target, b[target]),
        b[target].same_as(a[target].minus_multiple_of(a[source], col)),
    ensures
        same_kernel(a, b, cols),
{
    let t = a[target];
    let s = a[source];
    let e = t.minus_multiple_of(s, col);
    lemma_product_nonzero(t.den, s.den);
    assert(b[source] == s);
    assert forall|c: Seq<int>| c.len() == cols implies in_kernel(a, c) == in_kernel(b, c) by {
        lemma_same_row_annihilates(b[target], e, c);
        lemma_idot_combined(e.nums, t.nums, s.nums, c, s.den, t.nums[col], c.len());
        let (it, is, ie) = (
            idot(t.nums, c, c.len()),
            idot(s.nums, c, c.len()),
            idot(e.nums, c, c.len()),
        );
        if in_kernel(a, c) || in_kernel(b, c) {
            assert(annihilates(c, a[source]) || annihilates(c, b[source]));
            assert(is == 0);
            assert(t.nums[col] * is == 0) by (nonlinear_arith)
                requires
                    is == 0,
            ;
            assert(ie == it * s.den);
            assert(it * s.den == ie * 1);
            lemma_proportional_zero(it, s.den, ie, 1);
            assert(annihilates(c, t) == annihilates(c, b[target]));
        }
        if in_kernel(a, c) {
            assert forall|r: int| 0 <= r < b.len() implies annihilates(c, #[trigger] b[r]) by {
                assert(annihilates(c, a[r]));
            }
        }
        if in_kernel(b, c) {
            assert forall|r: int| 0 <= r < a.len() implies annihilates(c, #[trigger] a[r]) by {
                assert(annihilates(c, b[r]));
            }
        }
    }
}

/// Matrices made of the same rows have the same kernel.
pub proof fn lemma_kernel_same_rows(a: Seq<ScaledRow>, b: Seq<ScaledRow>, cols: int)
    requires
        forall|i: int| 0 <= i < a.len() ==> b.contains(#[trigger] a[i]),
        forall|i: int| 0 <= i < b.len() ==> a.contains(#[trigger] b[i]),
    ensures
        same_kernel(a, b, cols),
{
    assert forall|c: Seq<int>| c.len() == cols implies in_kernel(a, c) == in_kernel(b, c) by {
        if in_kernel(a, c) {
            assert forall|r: int| 0 <= r < b.len() implies annihilates(c, #[trigger] b[r]) by {
                assert(a.contains(b[r]));
                let i = choose|i: int| 0 <= i < a.len() && a[i] == b[r];
                assert(annihilates(c, a[i]));
            }
        }
        if in_kernel(b, c) {
            assert forall|r: int| 0 <= r < a.len() implies annihilates(c, #[trigger] a[r]) by {
                assert(b.contains(a[r]));
                let i = choose|i: int| 0 <= i < b.len() && b[i] == a[r];
                assert(annihilates(c, b[i]));
            }
        }
    }
}

/// Exchanging two rows keeps the kernel.
pub proof fn lemma_kernel_swapped(a: Seq<ScaledRow>, i: int, j: int, cols: int)
    requires
        0 <= i < a.len(),
        0 <= j < a.len(),
    ensures
        same_kernel(a, a.update(i, a[j]).update(j, a[i]), cols),
{
    let b = a.update(i, a[j]).update(j, a[i]);
    assert forall|r: int| 0 <= r < a.len() implies b.contains(#[trigger] a[r]) by {
        if r == i {
            assert(b[j] == a[r]);
        } else if r == j {
            assert(b[i] == a[r]);
        } else {
            assert(b[r] == a[r]);
        }
    }
    assert forall|r: int| 0 <= r < b.len() implies a.contains(#[trigger] b[r]) by {
        if r == j {
            assert(a[i] == b[r]);
        } else if r == i {
            assert(a[j] == b[r]);
        } else {
            assert(a[r] == b[r]);
        }
    }
    lemma_kernel_same_rows(a, b, cols);
}

/// Having the same kernel goes both ways.
pub proof fn lemma_same_kernel_symmetric(a: Seq<ScaledRow>, b: Seq<ScaledRow>, cols: int)
    requires
        same_kernel(a, b, cols),
    ensures
        same_kernel(b, a, cols),
{
    assert forall|v: Seq<int>| v.len() == cols implies in_kernel(b, v) == in_kernel(a, v) by {
        assert(in_kernel(a, v) == in_kernel(b, v));
    }
}

/// Having the same kernel passes along a chain.
pub proof fn lemma_same_kernel_transitive(
    a: Seq<ScaledRow>,
    b: Seq<ScaledRow>,
    c: Seq<ScaledRow>,
    cols: int,
)
    requires
        same_kernel(a, b, cols),
        same_kernel(b, c, cols),
    ensures
        same_kernel(a, c, cols),
{
    assert forall|v: Seq<int>| v.len() == cols implies in_kernel(a, v) == in_kernel(c, v) by {
        assert(in_kernel(a, v) == in_kernel(b, v));
        assert(in_kernel(b, v) == in_kernel(c, v));
    }
}

/// Matrices with the same kernel have the same rank.
pub proof fn lemma_rank_same_kernel(a: Seq<ScaledRow>, b: Seq<ScaledRow>, cols: int)
    requires
        same_kernel(a, b, cols),
    ensures
        rank_of(a, cols) == rank_of(b, cols),
{
    assert forall|j: int| dependent_column(a, cols, j) == dependent_column(b, cols, j) by {
        if dependent_column(a, cols, j) {
            let c = choose|c: Seq<int>| depends_by(a, cols, j, c);
            assert(in_kernel(a, c) == in_kernel(b, c));
            assert(depends_by(b, cols, j, c));
        }
        if dependent_column(b, cols, j) {
            let c = choose|c: Seq<int>| depends_by(b, cols, j, c);
            assert(in_kernel(a, c) == in_kernel(b, c));
            assert(depends_by(a, cols, j, c));
        }
    }
    assert(independent_columns(a, cols) =~= independent_columns(b, cols));
}

/// The rank does not depend on the order of the rows: two matrices with the
/// same rows, each as often in one as in the other, have the same rank.
pub proof fn law_rank_is_permutation_invariant(a: Seq<ScaledRow>, b: Seq<ScaledRow>, cols: int)
    requires
        a.to_multiset() == b.to_multiset(),
    ensures
        rank_of(a, cols) == rank_of(b, cols),
{
    a.to_multiset_ensures();
    b.to_multiset_ensures();
    assert forall|i: int| 0 <= i < a.len() implies b.contains(#[trigger] a[i]) by {
        assert(a.contains(a[i]));
        assert(a.to_multiset().count(a[i]) > 0);
    }
    assert forall|i: int| 0 <= i < b.len() implies a.contains(#[trigger] b[i]) by {
        assert(b.contains(b[i]));
        assert(b.to_multiset().count(b[i]) > 0);
    }
    lemma_kernel_same_rows(a, b, cols);
    lemma_rank_same_kernel(a, b, cols);
}

/// Exchanging two rows keeps the rank.
pub proof fn law_rank_is_swap_invariant(a: Seq<ScaledRow>, i: int, j: int, cols: int)
    requires
        0 <= i < a.len(),
        0 <= j < a.len(),
    ensures
        rank_of(a.update(i, a[j]).update(j, a[i]), cols) == rank_of(a, cols),
{
    lemma_kernel_swapped(a, i, j, cols);
    lemma_rank_same_kernel(a, a.update(i, a[j]).update(j, a[i]), cols);
}

/// The column vector that is one at `j` and zero elsewhere.
pub open spec fn unit_vector(cols: int, j: int) -> Seq<int> {
    Seq::new(cols as nat, |k: int| if k == j { 1int } else { 0int })
}

/// A matrix whose entries are all zero has rank zero.
pub proof fn law_rank_of_zero_matrix(m: Seq<ScaledRow>, cols: int)
    requires
        valid_rows(m, cols),
        forall|i: int| 0 <= i < m.len() ==> (#[trigger] m[i]).is_zero_row(),
    ensures
        rank_of(m, cols) == 0,
{
    assert forall|j: int| 0 <= j < cols implies dependent_column(m, cols, j) by {
        let c = unit_vector(cols, j);
        assert forall|i: int| 0 <= i < m.len() implies annihilates(c, #[trigger] m[i]) by {
            assert(m[i].is_zero_row());
            assert(m[i].valid(cols));
            lemma_idot_sparse(m[i].nums, c, c.len(), -1, -2);
        }
        assert(depends_by(m, cols, j, c));
    }
    assert(independent_columns(m, cols) =~= Set::<int>::empty());
}

/// A square matrix with ones on the diagonal and zeros elsewhere has full
/// rank.
pub proof fn law_rank_of_identity(m: Seq<ScaledRow>, n: int)
    requires
        m.len() == n,
        valid_rows(m, n),
        forall|i: int, k: int|
            0 <= i < n && 0 <= k < n ==> #[trigger] m[i].nums[k] == (if i == k {
                m[i].den
            } else {
                0
            }),
    ensures
        rank_of(m, n) == n,
{
    assert forall|j: int| 0 <= j < n implies !dependent_column(m, n, j) by {
        if dependent_column(m, n, j) {
            let c = choose|c: Seq<int>| depends_by(m, n, j, c);
            assert(annihilates(c, m[j]));
            assert(m[j].valid(n));
            lemma_idot_sparse(m[j].nums, c, c.len(), j, -1);
            assert(m[j].nums[j] == m[j].den);
            lemma_product_nonzero(m[j].nums[j], c[j]);
        }
    }
    assert(independent_columns(m, n) =~= set_int_range(0, n));
    lemma_int_range(0, n);
}

} // verus!
