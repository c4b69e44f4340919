//! The reduced row-echelon form is unique: two such forms with the same kernel
//! hold the same numbers.

use crate::arith::{lemma_cancel, lemma_regroup, lemma_zero_product};
use crate::echelon::{
    dens_product, dens_product_except, dependence_witness, echelon_complete, is_rref, leading,
    lemma_dens_product_nonzero, lemma_dens_product_split, lemma_echelon_independent_columns,
    lemma_echelon_leading, lemma_free_column_dependent, lemma_leading_properties, pivot_row,
};
use crate::linalg::{
    annihilates, dependent_column, depends_by, in_kernel, independent_columns,
    lemma_idot_sparse, same_kernel, valid_rows, ScaledRow,
};
use vstd::prelude::*;

verus! {

/// Two strictly rising sequences with the same members are the same
/// sequence.
pub proof fn lemma_rising_sequences_equal(p: Seq<int>, q: Seq<int>)
    requires
        forall|i: int, j: int| 0 <= i < j < p.len() ==> #[trigger] p[i] < #[trigger] p[j],
        forall|i: int, j: int| 0 <= i < j < q.len() ==> #[trigger] q[i] < #[trigger] q[j],
        forall|x: int| p.contains(x) == q.contains(x),
    ensures
        p == q,
    decreases p.len(),
{
    if p.len() == 0 {
        if q.len() > 0 {
            assert(q.contains(q[0]));
            assert(p.contains(q[0]));
        }
        assert(p =~= q);
    } else {
        assert(p.contains(p.last()));
        assert(q.contains(p.last()));
        let k = choose|k: int| 0 <= k < q.len() && q[k] == p.last();
        assert(q.contains(q.last()));
        assert(p.contains(q.last()));
        let l = choose|l: int| 0 <= l < p.len() && p[l] == q.last();
        if l < p.len() - 1 {
            assert(p[l] < p[p.len() - 1]);
        }
        if k < q.len() - 1 {
            assert(q[k] < q[q.len() - 1]);
        }
        assert(p.last() == q.last());
        let p0 = p.drop_last();
        let q0 = q.drop_last();
        assert forall|x: int| p0.contains(x) == q0.contains(x) by {
            if p0.contains(x) {
                let i = choose|i: int| 0 <= i < p0.len() && p0[i] == x;
                assert(p[i] == x);
                assert(p[i] < p[p.len() - 1]);
                assert(p.contains(x));
                let j = choose|j: int| 0 <= j < q.len() && q[j] == x;
                assert(j < q.len() - 1);
                assert(q0[j] == x);
            }
            if q0.contains(x) {
                let i = choose|i: int| 0 <= i < q0.len() && q0[i] == x;
                assert(q[i] == x);
                assert(q[i] < q[q.len() - 1]);
                assert(q.contains(x));
                let j = choose|j: int| 0 <= j < p.len() && p[j] == x;
                assert(j < p.len() - 1);
                assert(p0[j] == x);
            }
        }
        assert forall|i: int, j: int| 0 <= i < j < p0.len() implies #[trigger] p0[i] < #[trigger] p0[j] by {
            assert(p[i] < p[j]);
        }
        assert forall|i: int, j: int| 0 <= i < j < q0.len() implies #[trigger] q0[i] < #[trigger] q0[j] by {
            assert(q[i] < q[j]);
        }
        lemma_rising_sequences_equal(p0, q0);
        assert(p =~= p0.push(p.last()));
        assert(q =~= q0.push(q.last()));
    }
}

/// The first row at or after `k` that is zero, or the number of rows where
/// there is none.
pub open spec fn first_zero_row(m: Seq<ScaledRow>, cols: int, k: int) -> int
    decreases m.len() - k,
{
    if k < 0 || k >= m.len() {
        m.len() as int
    } else if leading(m[k]) >= cols {
        k
    } else {
        first_zero_row(m, cols, k + 1)
    }
}

/// The columns of the leading entries of a reduced row-echelon form.
pub open spec fn leading_columns(m: Seq<ScaledRow>, cols: int) -> Seq<int> {
    Seq::new(first_zero_row(m, cols, 0) as nat, |i: int| leading(m[i]))
}

/// The rows before the first zero row are not zero.
pub proof fn lemma_first_zero_row(m: Seq<ScaledRow>, cols: int, k: int)
    requires
        0 <= k <= m.len(),
    ensures
        k <= first_zero_row(m, cols, k) <= m.len(),
        forall|i: int| k <= i < first_zero_row(m, cols, k) ==> leading(#[trigger] m[i]) < cols,
        first_zero_row(m, cols, k) < m.len() ==> leading(m[first_zero_row(m, cols, k)]) >= cols,
    decreases m.len() - k,
{
    if k < m.len() && leading(m[k]) < cols {
        lemma_first_zero_row(m, cols, k + 1);
    }
}

/// A reduced row-echelon form is a finished elimination whose pivots are its
/// leading entries.
pub proof fn lemma_rref_is_echelon(m: Seq<ScaledRow>, cols: int)
    requires
        0 <= cols,
        valid_rows(m, cols),
        is_rref(m, cols),
    ensures
        echelon_complete(m, cols, leading_columns(m, cols)),
{
    let pivots = leading_columns(m, cols);
    let r = pivots.len() as int;
    lemma_first_zero_row(m, cols, 0);
    assert forall|i: int| 0 <= i < m.len() implies 0 <= leading(#[trigger] m[i]) <= cols && (
    forall|k: int| 0 <= k < leading(m[i]) ==> m[i].nums[k] == 0) by {
        assert(m[i].valid(cols));
        lemma_leading_properties(m[i].nums, 0);
    }
    assert forall|j: int| r <= j < m.len() implies leading(#[trigger] m[j]) == cols by {
        if j > r && leading(m[j]) < cols {
            assert(leading(m[r]) < leading(m[j]));
        }
    }
    assert forall|i: int| 0 <= i < r implies 0 <= #[trigger] pivots[i] < cols by {
        assert(leading(m[i]) < cols);
    }
    assert forall|i: int, j: int| 0 <= i < j < r implies #[trigger] pivots[i] < #[trigger] pivots[j] by {
        assert(leading(m[j]) < cols);
        assert(leading(m[i]) < leading(m[j]));
    }
    assert forall|i: int| 0 <= i < r implies (#[trigger] m[i]).one_at(pivots[i]) by {
        assert(leading(m[i]) < cols);
    }
    assert forall|i: int, k: int| 0 <= i < r && 0 <= k < pivots[i] implies #[trigger] m[i].nums[k]
        == 0 by {
        assert(leading(m[i]) < cols);
    }
    assert forall|i: int, j: int|
        0 <= i < r && 0 <= j < m.len() && j != i implies #[trigger] m[j].nums[pivots[i]] == 0 by {
        assert(leading(m[i]) < cols);
        assert(m[j].zero_at(leading(m[i])));
    }
    assert forall|j: int, k: int| r <= j < m.len() && 0 <= k < cols implies #[trigger] m[j].nums[k]
        == 0 by {
        assert(leading(m[j]) == cols);
    }
}

/// Two finished eliminations with the same kernel have their pivots in the
/// same columns, and their rows hold the same numbers.
pub proof fn lemma_echelon_unique(
    b: Seq<ScaledRow>,
    pb: Seq<int>,
    c: Seq<ScaledRow>,
    pc: Seq<int>,
    cols: int,
)
    requires
        b.len() == c.len(),
        echelon_complete(b, cols, pb),
        echelon_complete(c, cols, pc),
        same_kernel(b, c, cols),
    ensures
        pb == pc,
        forall|i: int| 0 <= i < b.len() ==> (#[trigger] c[i]).same_as(b[i]),
{
    lemma_echelon_independent_columns(b, cols, pb);
    lemma_echelon_independent_columns(c, cols, pc);
    assert forall|j: int| dependent_column(b, cols, j) == dependent_column(c, cols, j) by {
        if dependent_column(b, cols, j) {
            let v = choose|v: Seq<int>| depends_by(b, cols, j, v);
            assert(in_kernel(b, v) == in_kernel(c, v));
            assert(depends_by(c, cols, j, v));
        }
        if dependent_column(c, cols, j) {
            let v = choose|v: Seq<int>| depends_by(c, cols, j, v);
            assert(in_kernel(b, v) == in_kernel(c, v));
            assert(depends_by(b, cols, j, v));
        }
    }
    assert(independent_columns(b, cols) =~= independent_columns(c, cols));
    assert forall|x: int| pb.contains(x) == pc.contains(x) by {
        assert(pb.to_set().contains(x) == pc.to_set().contains(x));
    }
    lemma_rising_sequences_equal(pb, pc);
    let r = pb.len() as int;
    lemma_echelon_leading(b, cols, pb);
    lemma_echelon_leading(c, cols, pc);
    assert forall|i: int| 0 <= i < b.len() implies (#[trigger] c[i]).same_as(b[i]) by {
        assert(b[i].valid(cols));
        assert(c[i].valid(cols));
        assert forall|j: int| 0 <= j < cols implies #[trigger] c[i].nums[j] * b[i].den
            == b[i].nums[j] * c[i].den by {
            if i >= r {
                assert(b[i].is_zero_row());
                assert(c[i].is_zero_row());
                lemma_zero_product(c[i].nums[j], b[i].den);
                lemma_zero_product(b[i].nums[j], c[i].den);
            } else {
                lemma_echelon_entry_unique(b, c, pb, cols, i, j);
            }
        }
    }
}

/// One entry of two finished eliminations with the same kernel and pivots.
proof fn lemma_echelon_entry_unique(
    b: Seq<ScaledRow>,
    c: Seq<ScaledRow>,
    pivots: Seq<int>,
    cols: int,
    i: int,
    j: int,
)
    requires
        b.len() == c.len(),
        echelon_complete(b, cols, pivots),
        echelon_complete(c, cols, pivots),
        same_kernel(b, c, cols),
        0 <= i < pivots.len(),
        0 <= j < cols,
    ensures
        c[i].nums[j] * b[i].den == b[i].nums[j] * c[i].den,
{
    let p = pivots[i];
    let (bn, bd, cn, cd) = (b[i].nums[j], b[i].den, c[i].nums[j], c[i].den);
    assert(b[i].valid(cols));
    assert(c[i].valid(cols));
    assert(b[i].one_at(p));
    assert(c[i].one_at(p));
    if pivots.contains(j) {
        let i2 = choose|i2: int| 0 <= i2 < pivots.len() && pivots[i2] == j;
        if i2 == i {
            lemma_regroup(cd, bd, 1);
        } else {
            assert(b[i].nums[pivots[i2]] == 0);
            assert(c[i].nums[pivots[i2]] == 0);
            lemma_zero_product(cn, bd);
            lemma_zero_product(bn, cd);
        }
    } else if j < p {
        assert(b[i].nums[j] == 0);
        assert(c[i].nums[j] == 0);
        lemma_zero_product(cn, bd);
        lemma_zero_product(bn, cd);
    } else {
        let v = dependence_witness(b, cols, pivots, j);
        lemma_free_column_dependent(b, cols, pivots, j);
        assert(in_kernel(b, v) == in_kernel(c, v));
        assert(annihilates(v, c[i]));
        assert(pivots.contains(p));
        let i2 = pivot_row(pivots, p);
        assert(pivots[i2] == p);
        assert(i2 == i) by {
            if i2 < i {
                assert(pivots[i2] < pivots[i]);
            }
            if i < i2 {
                assert(pivots[i] < pivots[i2]);
            }
        }
        assert forall|k: int| 0 <= k < cols && k != p && k != j implies c[i].nums[k] == 0 || v[k]
            == 0 by {
            if k < p {
                assert(c[i].nums[k] == 0);
            } else if k < j && pivots.contains(k) {
                let i3 = pivot_row(pivots, k);
                assert(pivots[i3] == k);
                assert(c[i].nums[pivots[i3]] == 0);
            }
        }
        lemma_idot_sparse(c[i].nums, v, v.len(), p, j);
        let r = pivots.len();
        let e = dens_product_except(b, r, i);
        let whole = dens_product(b, r);
        lemma_dens_product_split(b, r, i);
        assert forall|a: int| 0 <= a < r implies (#[trigger] b[a]).den != 0 by {
            assert(b[a].valid(cols));
        }
        lemma_dens_product_nonzero(b, r);
        assert(v[p] == -(bn * e));
        assert(v[j] == whole);
        assert(c[i].nums[p] == cd);
        // cd * (-(bn * e)) + cn * (bd * e) == 0, and e is not zero
        assert(cd * (-(bn * e)) + cn * whole == 0);
        assert(e != 0) by {
            if e == 0 {
                lemma_zero_product(bd, e);
            }
        }
        lemma_regroup(cn, bd, e);
        lemma_regroup(bn, cd, e);
        lemma_regroup(cd, bn, e);
        assert(cd * (-(bn * e)) == -((bn * cd) * e)) by (nonlinear_arith)
            requires
                cd * (bn * e) == (bn * cd) * e,
        ;
        assert((cn * bd) * e == (bn * cd) * e);
        lemma_cancel(cn * bd, bn * cd, e);
    }
}

} // verus!
