//! Matrices of exact rational numbers.
//!
//! Each row keeps integer numerators over one positive denominator, in lowest
//! terms. The row operations of Gaussian elimination work on whole rows, and
//! their contracts say which rational numbers the changed row holds.

use crate::arith::{lemma_cancel, lemma_product_nonzero, lemma_regroup};
use crate::bigint::{magnitude_of, BigInt};
use crate::bignat::{lemma_divides_transitive, lemma_gcd_divides, BigNat};
use crate::content::{
    content, in_lowest_terms, lemma_content_scaled, lemma_content_stays_one,
    rows_in_lowest_terms,
};
use crate::linalg::{valid_rows, ScaledRow};
use vstd::arithmetic::div_mod::lemma_fundamental_div_mod;
use vstd::prelude::*;

verus! {

/// The rows of integers as a matrix of rational numbers.
pub open spec fn integer_model(rows: Seq<Vec<i64>>) -> Seq<ScaledRow> {
    Seq::new(
        rows.len(),
        |i: int| ScaledRow { nums: Seq::new(rows[i]@.len(), |k: int| rows[i]@[k] as int), den: 1 },
    )
}

/// The row of rational numbers that the numerators and the denominator hold.
pub open spec fn row_model(nums: Seq<BigInt>, den: BigNat) -> ScaledRow {
    ScaledRow { nums: Seq::new(nums.len(), |k: int| nums[k]@), den: den@ as int }
}

/// Rows that hold the same numbers as a common third row hold the same
/// numbers.
pub proof fn lemma_same_as_transitive(a: ScaledRow, b: ScaledRow, c: ScaledRow)
    requires
        a.same_as(b),
        b.same_as(c),
        b.den != 0,
    ensures
        a.same_as(c),
{
    assert forall|k: int| 0 <= k < a.nums.len() implies #[trigger] a.nums[k] * c.den == c.nums[k]
        * a.den by {
        let (an, ad, bn, bd, cn, cd) = (a.nums[k], a.den, b.nums[k], b.den, c.nums[k], c.den);
        assert(an * bd == bn * ad);
        assert(bn * cd == cn * bd);
        assert((an * cd) * bd == (cn * ad) * bd) by (nonlinear_arith)
            requires
                an * bd == bn * ad,
                bn * cd == cn * bd,
        ;
        assert(an * cd == cn * ad) by (nonlinear_arith)
            requires
                (an * cd) * bd == (cn * ad) * bd,
                bd != 0,
        ;
    }
}

/// A rectangular matrix of rational numbers.
#[derive(Debug)]
pub struct Matrix {
    nums: Vec<Vec<BigInt>>,
    dens: Vec<BigNat>,
    cols: usize,
}

impl View for Matrix {
    type V = Seq<ScaledRow>;

    closed spec fn view(&self) -> Seq<ScaledRow> {
        Seq::new(self.nums@.len(), |i: int| row_model(self.nums@[i]@, self.dens@[i]))
    }
}

impl Clone for Matrix {
    /// A copy of the matrix, for a caller that still needs the matrix after
    /// it has been reduced.
    fn clone(&self) -> (r: Self)
        ensures
            r.width() == self.width(),
            self.wf() ==> r.wf() && r@ == self@,
    {
        let mut nums: Vec<Vec<BigInt>> = Vec::new();
        let mut dens: Vec<BigNat> = Vec::new();
        let rows = if self.nums.len() <= self.dens.len() {
            self.nums.len()
        } else {
            self.dens.len()
        };
        let mut i: usize = 0;
        while i < rows
            invariant
                rows <= self.nums@.len(),
                rows <= self.dens@.len(),
                i <= rows,
                nums@.len() == i,
                dens@.len() == i,
                forall|a: int|
                    0 <= a < i ==> (#[trigger] dens@[a])@ == self.dens@[a]@ && dens@[a].wf()
                        == self.dens@[a].wf(),
                forall|a: int| 0 <= a < i ==> (#[trigger] nums@[a])@.len() == self.nums@[a]@.len(),
                forall|a: int, k: int|
                    0 <= a < i && 0 <= k < nums@[a]@.len() ==> (#[trigger] nums@[a]@[k])@
                        == self.nums@[a]@[k]@ && nums@[a]@[k].wf() == self.nums@[a]@[k].wf(),
            decreases rows - i,
        {
            let mut row: Vec<BigInt> = Vec::new();
            let mut k: usize = 0;
            while k < self.nums[i].len()
                invariant
                    i < self.nums@.len(),
                    k <= self.nums@[i as int]@.len(),
                    row@.len() == k,
                    forall|b: int|
                        0 <= b < k ==> (#[trigger] row@[b])@ == self.nums@[i as int]@[b]@
                            && row@[b].wf() == self.nums@[i as int]@[b].wf(),
                decreases self.nums@[i as int]@.len() - k,
            {
                row.push(self.nums[i][k].clone());
                k += 1;
            }
            nums.push(row);
            dens.push(self.dens[i].clone());
            i += 1;
        }
        let copy = Matrix { nums, dens, cols: self.cols };
        proof {
            if self.wf() {
                assert(copy@.len() == self@.len());
                assert forall|a: int| 0 <= a < copy@.len() implies copy@[a] == self@[a] by {
                    assert(copy@[a].nums =~= self@[a].nums);
                }
                assert(copy@ =~= self@);
            }
        }
        copy
    }
}

impl Matrix {
    /// The number of columns.
    pub closed spec fn width(&self) -> int {
        self.cols as int
    }

    /// The matrix is rectangular, and every row is in lowest terms.
    pub closed spec fn wf(&self) -> bool {
        self.well_shaped() && rows_in_lowest_terms(self@)
    }

    /// The matrix is rectangular, and every row has a positive denominator.
    spec fn well_shaped(&self) -> bool {
        &&& self.nums@.len() == self.dens@.len()
        &&& forall|i: int| 0 <= i < self.nums@.len() ==> (#[trigger] self.nums@[i])@.len() == self.cols
        &&& forall|i: int|
            0 <= i < self.dens@.len() ==> (#[trigger] self.dens@[i]).wf() && self.dens@[i]@ > 0
        &&& forall|i: int, k: int|
            0 <= i < self.nums@.len() && 0 <= k < self.cols ==> (#[trigger] self.nums@[i]@[k]).wf()
    }

    /// What a well-formed matrix is as a model.
    pub proof fn lemma_wf(&self)
        requires
            self.wf(),
        ensures
            self.width() >= 0,
            valid_rows(self@, self.width()),
            rows_in_lowest_terms(self@),
    {
    }

    /// The matrix with the given rows of integers; none where a row does not
    /// have `cols` entries.
    pub fn from_rows(rows: &Vec<Vec<i64>>, cols: usize) -> (r: Option<Matrix>)
        ensures
            r is Some <==> forall|i: int| 0 <= i < rows@.len() ==> (#[trigger] rows@[i])@.len() == cols,
            r is Some ==> r->0.wf() && r->0@ == integer_model(rows@) && r->0.width() == cols,
    {
        let mut nums: Vec<Vec<BigInt>> = Vec::new();
        let mut dens: Vec<BigNat> = Vec::new();
        let mut i: usize = 0;
        while i < rows.len()
            invariant
                i <= rows@.len(),
                nums@.len() == i,
                dens@.len() == i,
                forall|a: int| 0 <= a < i ==> (#[trigger] rows@[a])@.len() == cols,
                forall|a: int| 0 <= a < i ==> (#[trigger] nums@[a])@.len() == cols,
                forall|a: int| 0 <= a < i ==> (#[trigger] dens@[a]).wf() && dens@[a]@ == 1,
                forall|a: int, k: int|
                    0 <= a < i && 0 <= k < cols ==> (#[trigger] nums@[a]@[k]).wf() && nums@[a]@[k]@
                        == rows@[a]@[k],
            decreases rows@.len() - i,
        {
            if rows[i].len() != cols {
                return None;
            }
            let mut row: Vec<BigInt> = Vec::new();
            let mut k: usize = 0;
            while k < cols
                invariant
                    i < rows@.len(),
                    rows@[i as int]@.len() == cols,
                    k <= cols,
                    row@.len() == k,
                    forall|b: int|
                        0 <= b < k ==> (#[trigger] row@[b]).wf() && row@[b]@ == rows@[i as int]@[b],
                decreases cols - k,
            {
                row.push(BigInt::from_i64(rows[i][k]));
                k += 1;
            }
            nums.push(row);
            dens.push(BigNat::from_u64(1));
            i += 1;
        }
        let m = Matrix { nums, dens, cols };
        proof {
            assert(m@.len() == integer_model(rows@).len());
            assert forall|a: int| 0 <= a < m@.len() implies m@[a] == integer_model(rows@)[a] by {
                assert(m@[a].nums =~= integer_model(rows@)[a].nums);
            }
            assert(m@ =~= integer_model(rows@));
            assert forall|a: int| 0 <= a < m@.len() implies in_lowest_terms(#[trigger] m@[a]) by {
                lemma_content_stays_one(m@[a], 0, cols as nat);
            }
        }
        Some(m)
    }

    /// The number of rows.
    pub fn num_rows(&self) -> (r: usize)
        requires
            self.wf(),
        ensures
            r == self@.len(),
    {
        self.nums.len()
    }

    /// The number of columns.
    pub fn num_cols(&self) -> (r: usize)
        requires
            self.wf(),
        ensures
            r == self.width(),
    {
        self.cols
    }

    /// Whether the entry in row `i` and column `k` is zero.
    pub fn entry_is_zero(&self, i: usize, k: usize) -> (r: bool)
        requires
            self.wf(),
            i < self@.len(),
            k < self.width(),
        ensures
            r == self@[i as int].zero_at(k as int),
    {
        self.nums[i][k].is_zero()
    }

    /// Whether the entry in row `i` and column `k` is one.
    pub fn entry_is_one(&self, i: usize, k: usize) -> (r: bool)
        requires
            self.wf(),
            i < self@.len(),
            k < self.width(),
        ensures
            r == self@[i as int].one_at(k as int),
    {
        let den = BigInt::from_nat(self.dens[i].clone());
        self.nums[i][k].equals(&den)
    }

    /// Whether the entry in row `i` and column `k` is the number `num / den`.
    pub fn entry_equals(&self, i: usize, k: usize, num: i64, den: i64) -> (r: bool)
        requires
            self.wf(),
            i < self@.len(),
            k < self.width(),
        ensures
            r == (self@[i as int].nums[k as int] * den == num * self@[i as int].den),
    {
        let left = self.nums[i][k].mul(&BigInt::from_i64(den));
        let right = BigInt::from_i64(num).mul(&BigInt::from_nat(self.dens[i].clone()));
        left.equals(&right)
    }

    /// Exchanges the rows `i` and `j`.
    pub fn swap_rows(&mut self, i: usize, j: usize)
        requires
            old(self).wf(),
            i < old(self)@.len(),
            j < old(self)@.len(),
        ensures
            final(self).wf(),
            final(self).width() == old(self).width(),
            final(self)@ == old(self)@.update(i as int, old(self)@[j as int]).update(
                j as int,
                old(self)@[i as int],
            ),
    {
        if i != j {
            let mut row: Vec<BigInt> = Vec::new();
            core::mem::swap(&mut row, &mut self.nums[i]);
            core::mem::swap(&mut row, &mut self.nums[j]);
            core::mem::swap(&mut row, &mut self.nums[i]);
            let mut den = BigNat::zero();
            core::mem::swap(&mut den, &mut self.dens[i]);
            core::mem::swap(&mut den, &mut self.dens[j]);
            core::mem::swap(&mut den, &mut self.dens[i]);
        }
        proof {
            let target = old(self)@.update(i as int, old(self)@[j as int]).update(
                j as int,
                old(self)@[i as int],
            );
            assert(self@ =~= target);
            assert forall|r: int| 0 <= r < self@.len() implies in_lowest_terms(
                #[trigger] self@[r],
            ) by {
                let source = if r == i {
                    j as int
                } else if r == j {
                    i as int
                } else {
                    r
                };
                assert(self@[r] == old(self)@[source]);
                assert(in_lowest_terms(old(self)@[source]));
            }
        }
    }

    /// Divides row `i` and its denominator by what they have in common.
    fn reduce_row(&mut self, i: usize)
        requires
            old(self).well_shaped(),
            i < old(self)@.len(),
        ensures
            final(self).well_shaped(),
            final(self).width() == old(self).width(),
            final(self)@.len() == old(self)@.len(),
            forall|r: int| 0 <= r < old(self)@.len() && r != i ==> final(self)@[r] == old(self)@[r],
            final(self)@[i as int].same_as(old(self)@[i as int]),
            in_lowest_terms(final(self)@[i as int]),
    {
        let cols = self.cols;
        let mut g = self.dens[i].clone();
        let one = BigNat::from_u64(1);
        let mut k: usize = 0;
        proof {
            vstd::arithmetic::div_mod::lemma_mod_self_0(g@ as int);
        }
        while k < cols && !g.equals(&one)
            invariant
                self.well_shaped(),
                *self == *old(self),
                cols == self.cols,
                i < self.nums@.len(),
                k <= cols,
                one.wf(),
                one@ == 1,
                g.wf(),
                g@ > 0,
                g@ == content(self@[i as int], k as nat),
                self.dens@[i as int]@ % g@ == 0,
                forall|j: int|
                    0 <= j < k ==> magnitude_of(#[trigger] self.nums@[i as int]@[j]@) % g@ == 0,
            decreases cols - k,
        {
            let next = g.gcd(self.nums[i][k].magnitude());
            proof {
                let m = magnitude_of(self.nums@[i as int]@[k as int]@);
                lemma_gcd_divides(g@, m);
                lemma_divides_transitive(self.dens@[i as int]@, g@, next@);
                assert forall|j: int| 0 <= j < k implies magnitude_of(
                    #[trigger] self.nums@[i as int]@[j]@,
                ) % next@ == 0 by {
                    lemma_divides_transitive(magnitude_of(self.nums@[i as int]@[j]@), g@, next@);
                }
            }
            g = next;
            k += 1;
        }
        if g.equals(&one) {
            proof {
                lemma_content_stays_one(self@[i as int], k as nat, cols as nat);
            }
            return ;
        }
        let ghost before = self.nums@[i as int]@;
        let mut k: usize = 0;
        while k < cols
            invariant
                cols == self.cols,
                self.cols == old(self).cols,
                self.dens == old(self).dens,
                self.nums@.len() == old(self).nums@.len(),
                i < self.nums@.len(),
                k <= cols,
                g.wf(),
                g@ > 0,
                before == old(self).nums@[i as int]@,
                before.len() == cols,
                self.nums@[i as int]@.len() == cols,
                forall|r: int|
                    0 <= r < self.nums@.len() && r != i ==> self.nums@[r] == old(self).nums@[r],
                forall|j: int| 0 <= j < cols ==> (#[trigger] before[j]).wf(),
                forall|j: int| 0 <= j < cols ==> magnitude_of(#[trigger] before[j]@) % g@ == 0,
                forall|j: int|
                    0 <= j < k ==> (#[trigger] self.nums@[i as int]@[j]).wf() && self.nums@[i as int]@[j]@
                        * g@ == before[j]@,
                forall|j: int| k <= j < cols ==> self.nums@[i as int]@[j] == before[j],
            decreases cols - k,
        {
            assert(self.nums@[i as int]@[k as int] == before[k as int]);
            assert(before[k as int].wf());
            let v = self.nums[i][k].div_exact(&g);
            self.nums[i][k] = v;
            k += 1;
        }
        let (d, _) = self.dens[i].div_rem(&g);
        proof {
            let dv = old(self).dens@[i as int]@ as int;
            lemma_fundamental_div_mod(dv, g@ as int);
            assert(d@ > 0) by (nonlinear_arith)
                requires
                    dv == g@ * d@,
                    dv > 0,
                    g@ > 0,
            ;
        }
        self.dens[i] = d;
        proof {
            let new_row = self@[i as int];
            let old_row = old(self)@[i as int];
            assert forall|j: int| 0 <= j < new_row.nums.len() implies #[trigger] new_row.nums[j]
                * old_row.den == old_row.nums[j] * new_row.den by {
                let n = new_row.nums[j];
                let gv = g@ as int;
                let dn = new_row.den;
                assert(old_row.nums[j] == n * gv);
                assert(old_row.den == gv * dn);
                lemma_regroup(n, gv, dn);
            }
            assert forall|r: int| 0 <= r < old(self)@.len() && r != i implies self@[r] == old(
                self,
            )@[r] by {
                assert(self.nums@[r] == old(self).nums@[r]);
            }
            assert forall|j: int| 0 <= j < cols implies #[trigger] old_row.nums[j] == g@
                * new_row.nums[j] by {
                lemma_regroup(new_row.nums[j], g@ as int, 1);
            }
            lemma_content_scaled(old_row, new_row, g@ as int, cols as nat);
            lemma_cancel(content(new_row, cols as nat) as int, 1, g@ as int);
        }
    }

    /// Divides row `i` by its entry in column `col`.
    pub fn divide_row_by_entry(&mut self, i: usize, col: usize)
        requires
            old(self).wf(),
            i < old(self)@.len(),
            col < old(self).width(),
            !old(self)@[i as int].zero_at(col as int),
        ensures
            final(self).wf(),
            final(self).width() == old(self).width(),
            final(self)@.len() == old(self)@.len(),
            forall|r: int| 0 <= r < old(self)@.len() && r != i ==> final(self)@[r] == old(self)@[r],
            final(self)@[i as int].same_as(old(self)@[i as int].divided_by_entry(col as int)),
    {
        let cols = self.cols;
        let flip = self.nums[i][col].is_negative();
        let den = self.nums[i][col].magnitude().clone();
        let ghost before = self.nums@[i as int]@;
        if flip {
            let mut k: usize = 0;
            while k < cols
                invariant
                    cols == self.cols,
                    self.cols == old(self).cols,
                    self.dens == old(self).dens,
                    self.nums@.len() == old(self).nums@.len(),
                    i < self.nums@.len(),
                    k <= cols,
                    before == old(self).nums@[i as int]@,
                    before.len() == cols,
                    self.nums@[i as int]@.len() == cols,
                    forall|r: int|
                        0 <= r < self.nums@.len() && r != i ==> self.nums@[r] == old(self).nums@[r],
                    forall|j: int| 0 <= j < cols ==> (#[trigger] before[j]).wf(),
                    forall|j: int|
                        0 <= j < k ==> (#[trigger] self.nums@[i as int]@[j]).wf()
                            && self.nums@[i as int]@[j]@ == -before[j]@,
                    forall|j: int| k <= j < cols ==> self.nums@[i as int]@[j] == before[j],
                decreases cols - k,
            {
                assert(self.nums@[i as int]@[k as int] == before[k as int]);
                assert(before[k as int].wf());
                let v = self.nums[i][k].neg();
                self.nums[i][k] = v;
                k += 1;
            }
        }
        self.dens[i] = den;
        let ghost middle = self@;
        proof {
            let target = old(self)@[i as int].divided_by_entry(col as int);
            let row = self@[i as int];
            let p = before[col as int]@;
            assert(target.den == p);
            assert forall|j: int| 0 <= j < row.nums.len() implies #[trigger] row.nums[j]
                * target.den == target.nums[j] * row.den by {
                let n = before[j]@;
                assert(target.nums[j] == n);
                if flip {
                    assert((-n) * p == n * (-p)) by (nonlinear_arith);
                }
            }
            assert(row.same_as(target));
            assert forall|r: int| 0 <= r < old(self)@.len() && r != i implies self@[r] == old(
                self,
            )@[r] by {
                assert(self.nums@[r] == old(self).nums@[r]);
            }
        }
        self.reduce_row(i);
        proof {
            lemma_same_as_transitive(
                self@[i as int],
                middle[i as int],
                old(self)@[i as int].divided_by_entry(col as int),
            );
            assert forall|r: int| 0 <= r < self@.len() implies in_lowest_terms(
                #[trigger] self@[r],
            ) by {
                if r != i {
                    assert(self@[r] == old(self)@[r]);
                    assert(in_lowest_terms(old(self)@[r]));
                }
            }
        }
    }

    /// Subtracts from row `target` its entry in column `col` times row
    /// `source`.
    pub fn subtract_multiple(&mut self, target: usize, source: usize, col: usize)
        requires
            old(self).wf(),
            target < old(self)@.len(),
            source < old(self)@.len(),
            target != source,
            col < old(self).width(),
        ensures
            final(self).wf(),
            final(self).width() == old(self).width(),
            final(self)@.len() == old(self)@.len(),
            forall|r: int|
                0 <= r < old(self)@.len() && r != target ==> final(self)@[r] == old(self)@[r],
            final(self)@[target as int].same_as(
                old(self)@[target as int].minus_multiple_of(old(self)@[source as int], col as int),
            ),
    {
        let cols = self.cols;
        let factor = self.nums[target][col].clone();
        let scale = BigInt::from_nat(self.dens[source].clone());
        let ghost before = self.nums@[target as int]@;
        let mut k: usize = 0;
        while k < cols
            invariant
                cols == self.cols,
                self.cols == old(self).cols,
                self.dens == old(self).dens,
                self.nums@.len() == old(self).nums@.len(),
                target < self.nums@.len(),
                source < self.nums@.len(),
                target != source,
                k <= cols,
                col < cols,
                factor.wf(),
                scale.wf(),
                factor@ == before[col as int]@,
                scale@ == old(self).dens@[source as int]@,
                before == old(self).nums@[target as int]@,
                before.len() == cols,
                self.nums@[target as int]@.len() == cols,
                self.nums@[source as int]@.len() == cols,
                forall|r: int|
                    0 <= r < self.nums@.len() && r != target ==> self.nums@[r] == old(self).nums@[r],
                forall|j: int| 0 <= j < cols ==> (#[trigger] before[j]).wf(),
                forall|j: int| 0 <= j < cols ==> (#[trigger] self.nums@[source as int]@[j]).wf(),
                forall|j: int|
                    0 <= j < k ==> (#[trigger] self.nums@[target as int]@[j]).wf()
                        && self.nums@[target as int]@[j]@ == before[j]@ * scale@ - factor@
                        * self.nums@[source as int]@[j]@,
                forall|j: int| k <= j < cols ==> self.nums@[target as int]@[j] == before[j],
            decreases cols - k,
        {
            assert(self.nums@[target as int]@[k as int] == before[k as int]);
            assert(before[k as int].wf());
            assert(self.nums@[source as int]@[k as int].wf());
            let v = self.nums[target][k].mul(&scale).sub(&factor.mul(&self.nums[source][k]));
            self.nums[target][k] = v;
            k += 1;
        }
        let den = self.dens[target].mul(&self.dens[source]);
        proof {
            lemma_product_nonzero(
                old(self).dens@[target as int]@ as int,
                old(self).dens@[source as int]@ as int,
            );
            let dt = old(self).dens@[target as int]@;
            let ds = old(self).dens@[source as int]@;
            assert(dt * ds > 0) by (nonlinear_arith)
                requires
                    dt > 0,
                    ds > 0,
            ;
        }
        self.dens[target] = den;
        let ghost middle = self@;
        proof {
            let goal = old(self)@[target as int].minus_multiple_of(
                old(self)@[source as int],
                col as int,
            );
            let row = self@[target as int];
            assert(row.den == goal.den);
            assert(row.nums =~= goal.nums);
            assert(row.same_as(goal));
            assert forall|r: int| 0 <= r < old(self)@.len() && r != target implies self@[r]
                == old(self)@[r] by {
                assert(self.nums@[r] == old(self).nums@[r]);
            }
        }
        self.reduce_row(target);
        proof {
            lemma_same_as_transitive(
                self@[target as int],
                middle[target as int],
                old(self)@[target as int].minus_multiple_of(old(self)@[source as int], col as int),
            );
            assert forall|r: int| 0 <= r < self@.len() implies in_lowest_terms(
                #[trigger] self@[r],
            ) by {
                if r != target {
                    assert(self@[r] == old(self)@[r]);
                    assert(in_lowest_terms(old(self)@[r]));
                }
            }
        }
    }
}

} // verus!
