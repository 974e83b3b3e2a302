//! Specification-level linear algebra over the scalar field.
//!
//! Vectors are integer sequences, matrices are sequences of rows; all
//! arithmetic facts are stated as congruences modulo the group order, so
//! that sums and products can be formed over the unbounded integers and
//! reduced only where a result is compared with a field residue.

use vstd::prelude::*;
use crate::field::{cong, in_field, lemma_cong_refl, lemma_cong_add, lemma_cong_mul};

verus! {

/// Every entry of the vector is a canonical field residue.
pub open spec fn vec_in_field(v: Seq<int>) -> bool {
    forall|k: int| 0 <= k < v.len() ==> in_field(#[trigger] v[k])
}

/// The dot product over the integers, truncated at the shorter argument.
pub open spec fn dot(a: Seq<int>, b: Seq<int>) -> int
    decreases a.len(),
{
    if a.len() == 0 || b.len() == 0 {
        0
    } else {
        a[0] * b[0] + dot(a.drop_first(), b.drop_first())
    }
}

/// Column `j` of a matrix.
pub open spec fn col(m: Seq<Seq<int>>, j: int) -> Seq<int> {
    Seq::new(m.len(), |k: int| m[k][j])
}

/// The `i`-th unit vector of length `n`.
pub open spec fn unit(n: nat, i: int) -> Seq<int> {
    Seq::new(n, |j: int| if j == i { 1int } else { 0int })
}

/// The identity matrix of size `n`.
pub open spec fn identity(n: nat) -> Seq<Seq<int>> {
    Seq::new(n, |i: int| unit(n, i))
}

/// The vector `p*x - f*y`, formed entrywise over the integers.
pub open spec fn vcomb(p: int, f: int, x: Seq<int>, y: Seq<int>) -> Seq<int> {
    Seq::new(x.len(), |k: int| p * x[k] - f * y[k])
}

/// The entrywise sum `x + y`.
pub open spec fn vadd(x: Seq<int>, y: Seq<int>) -> Seq<int> {
    Seq::new(x.len(), |k: int| x[k] + y[k])
}

/// The entrywise product `c * x`.
pub open spec fn vscale(c: int, x: Seq<int>) -> Seq<int> {
    Seq::new(x.len(), |k: int| c * x[k])
}

/// The row vector `s` times the matrix `m`, of width `w`.
pub open spec fn row_times(s: Seq<int>, m: Seq<Seq<int>>, w: nat) -> Seq<int> {
    Seq::new(w, |j: int| dot(s, col(m, j)))
}

/// The weighted sum of the rows of `m` against `b`:
/// `sum_i s[i] * dot(m[i], b)`, truncated at the shorter of `s` and `m`.
pub open spec fn wsum(s: Seq<int>, m: Seq<Seq<int>>, b: Seq<int>) -> int
    decreases s.len(),
{
    if s.len() == 0 || m.len() == 0 {
        0
    } else {
        s[0] * dot(m[0], b) + wsum(s.drop_first(), m.drop_first(), b)
    }
}

/// The matrix product `a * b`, with the width of the result given
/// explicitly so that it is defined even when `a` has no rows.
pub open spec fn mat_mul(a: Seq<Seq<int>>, b: Seq<Seq<int>>, w: nat) -> Seq<Seq<int>> {
    Seq::new(a.len(), |i: int| row_times(a[i], b, w))
}

/// Rowwise congruence of two matrices of equal shape.
pub open spec fn mat_cong(a: Seq<Seq<int>>, b: Seq<Seq<int>>) -> bool {
    &&& a.len() == b.len()
    &&& forall|i: int| 0 <= i < a.len() ==> (#[trigger] a[i]).len() == b[i].len()
    &&& forall|i: int, j: int|
        0 <= i < a.len() && 0 <= j < a[i].len() ==> cong(#[trigger] a[i][j], b[i][j])
}

/// A dot product with an entrywise-zero left argument is zero.
pub proof fn lemma_dot_zero_left(a: Seq<int>, b: Seq<int>)
    requires
        forall|k: int| 0 <= k < a.len() ==> a[k] == 0,
    ensures
        dot(a, b) == 0,
    decreases a.len(),
{
    if a.len() == 0 || b.len() == 0 {
    } else {
        lemma_dot_zero_left(a.drop_first(), b.drop_first());
    }
}

/// A dot product with an entrywise-zero right argument is zero.
pub proof fn lemma_dot_zero_right(a: Seq<int>, b: Seq<int>)
    requires
        forall|k: int| 0 <= k < b.len() ==> b[k] == 0,
    ensures
        dot(a, b) == 0,
    decreases a.len(),
{
    if a.len() == 0 || b.len() == 0 {
    } else {
        assert(a[0] * b[0] == 0) by (nonlinear_arith)
            requires
                b[0] == 0,
        ;
        lemma_dot_zero_right(a.drop_first(), b.drop_first());
    }
}

/// The dot product distributes over an entrywise sum on the left.
pub proof fn lemma_dot_add_left(x: Seq<int>, y: Seq<int>, b: Seq<int>)
    requires
        x.len() == y.len(),
    ensures
        dot(vadd(x, y), b) == dot(x, b) + dot(y, b),
    decreases x.len(),
{
    let s = vadd(x, y);
    if x.len() == 0 || b.len() == 0 {
    } else {
        assert(s.drop_first() =~= vadd(x.drop_first(), y.drop_first()));
        lemma_dot_add_left(x.drop_first(), y.drop_first(), b.drop_first());
        assert((x[0] + y[0]) * b[0] == x[0] * b[0] + y[0] * b[0]) by (nonlinear_arith);
    }
}

/// A scalar factor moves out of the dot product.
pub proof fn lemma_dot_scale_left(c: int, x: Seq<int>, b: Seq<int>)
    ensures
        dot(vscale(c, x), b) == c * dot(x, b),
    decreases x.len(),
{
    let s = vscale(c, x);
    if x.len() == 0 || b.len() == 0 {
        assert(c * dot(x, b) == 0) by (nonlinear_arith)
            requires
                dot(x, b) == 0,
        ;
    } else {
        assert(s.drop_first() =~= vscale(c, x.drop_first()));
        lemma_dot_scale_left(c, x.drop_first(), b.drop_first());
        assert((c * x[0]) * b[0] + c * dot(x.drop_first(), b.drop_first())
            == c * (x[0] * b[0] + dot(x.drop_first(), b.drop_first()))) by (nonlinear_arith);
    }
}

/// The dot product of `p*x - f*y` against `b` over the integers.
pub proof fn lemma_dot_comb_left(p: int, f: int, x: Seq<int>, y: Seq<int>, b: Seq<int>)
    requires
        x.len() == y.len(),
    ensures
        dot(vcomb(p, f, x, y), b) == p * dot(x, b) - f * dot(y, b),
{
    assert forall|k: int| 0 <= k < x.len() implies p * x[k] - f * y[k] == p * x[k] + (-f)
        * y[k] by {
        assert(p * x[k] - f * y[k] == p * x[k] + (-f) * y[k]) by (nonlinear_arith);
    }
    assert(vcomb(p, f, x, y) =~= vadd(vscale(p, x), vscale(-f, y)));
    lemma_dot_add_left(vscale(p, x), vscale(-f, y), b);
    lemma_dot_scale_left(p, x, b);
    lemma_dot_scale_left(-f, y, b);
    assert((-f) * dot(y, b) == -(f * dot(y, b))) by (nonlinear_arith);
}

/// Congruent left arguments give congruent dot products.
pub proof fn lemma_dot_cong_left(a: Seq<int>, a2: Seq<int>, b: Seq<int>)
    requires
        a.len() == a2.len(),
        forall|k: int| 0 <= k < a.len() ==> cong(#[trigger] a[k], a2[k]),
    ensures
        cong(dot(a, b), dot(a2, b)),
    decreases a.len(),
{
    if a.len() == 0 || b.len() == 0 {
    } else {
        assert(cong(a[0], a2[0]));
        lemma_cong_mul(a[0], b[0], a2[0], b[0]);
        lemma_dot_cong_left(a.drop_first(), a2.drop_first(), b.drop_first());
        lemma_cong_add(a[0] * b[0], dot(a.drop_first(), b.drop_first()), a2[0] * b[0],
            dot(a2.drop_first(), b.drop_first()));
    }
}

/// A dot product against a unit vector picks out one entry.
pub proof fn lemma_dot_unit(n: nat, i: int, b: Seq<int>)
    requires
        0 <= i < n,
        n <= b.len(),
    ensures
        dot(unit(n, i), b) == b[i],
    decreases n,
{
    let u = unit(n, i);
    assert(dot(u, b) == u[0] * b[0] + dot(u.drop_first(), b.drop_first()));
    if i == 0 {
        assert(u[0] == 1);
        lemma_dot_zero_left(u.drop_first(), b.drop_first());
        assert(1 * b[0] == b[0]);
    } else {
        assert(u[0] == 0);
        assert(u.drop_first() =~= unit((n - 1) as nat, i - 1));
        lemma_dot_unit((n - 1) as nat, i - 1, b.drop_first());
        assert(b.drop_first()[i - 1] == b[i]);
        assert(0 * b[0] == 0);
    }
}

/// Entries of the right argument may change wherever the left argument
/// is zero without affecting the dot product.
pub proof fn lemma_dot_skip(a: Seq<int>, b: Seq<int>, b2: Seq<int>)
    requires
        a.len() == b.len(),
        b.len() == b2.len(),
        forall|m: int| 0 <= m < b.len() ==> #[trigger] b[m] == b2[m] || a[m] == 0,
    ensures
        dot(a, b) == dot(a, b2),
    decreases a.len(),
{
    if a.len() == 0 || b.len() == 0 {
    } else {
        assert forall|m: int| 0 <= m < b.drop_first().len() implies #[trigger] b.drop_first()[m]
            == b2.drop_first()[m] || a.drop_first()[m] == 0 by {
            assert(b[m + 1] == b2[m + 1] || a[m + 1] == 0);
        }
        lemma_dot_skip(a.drop_first(), b.drop_first(), b2.drop_first());
    }
}

/// The index of the first nonzero entry of a vector, or its length if
/// every entry is zero: the pivot column of an echelon row.
pub open spec fn pivot(v: Seq<int>) -> int
    decreases v.len(),
{
    if v.len() == 0 {
        0
    } else if v[0] != 0 {
        0
    } else {
        1 + pivot(v.drop_first())
    }
}

/// The defining properties of `pivot`.
pub proof fn lemma_pivot_props(v: Seq<int>)
    ensures
        0 <= pivot(v) <= v.len(),
        forall|m: int| 0 <= m < pivot(v) ==> #[trigger] v[m] == 0,
        pivot(v) < v.len() ==> v[pivot(v)] != 0,
    decreases v.len(),
{
    if v.len() == 0 {
    } else if v[0] != 0 {
    } else {
        lemma_pivot_props(v.drop_first());
        assert forall|m: int| 0 <= m < pivot(v) implies #[trigger] v[m] == 0 by {
            if m > 0 {
                assert(v.drop_first()[m - 1] == 0);
            }
        }
        if pivot(v) < v.len() {
            assert(v[pivot(v)] == v.drop_first()[pivot(v.drop_first())]);
        }
    }
}

/// A vector whose first nonzero entry stands at `p` has pivot `p`.
pub proof fn lemma_pivot_is(v: Seq<int>, p: int)
    requires
        0 <= p < v.len(),
        v[p] != 0,
        forall|m: int| 0 <= m < p ==> #[trigger] v[m] == 0,
    ensures
        pivot(v) == p,
    decreases v.len(),
{
    if p == 0 {
    } else {
        lemma_pivot_is(v.drop_first(), p - 1);
    }
}

/// A vector that is zero up to and including `j` has its pivot beyond `j`.
pub proof fn lemma_pivot_beyond(v: Seq<int>, j: int)
    requires
        0 <= j < v.len(),
        forall|m: int| 0 <= m <= j ==> #[trigger] v[m] == 0,
    ensures
        pivot(v) > j,
    decreases v.len(),
{
    if j == 0 {
        lemma_pivot_props(v.drop_first());
    } else {
        lemma_pivot_beyond(v.drop_first(), j - 1);
    }
}

/// The integer values of a sequence of bytes.
pub open spec fn u8vals(s: Seq<u8>) -> Seq<int> {
    Seq::new(s.len(), |i: int| s[i] as int)
}

/// A dot product only reads the common prefix of its arguments.
pub proof fn lemma_dot_prefix(a: Seq<int>, b: Seq<int>, n: int)
    requires
        n == if a.len() <= b.len() {
            a.len() as int
        } else {
            b.len() as int
        },
    ensures
        dot(a, b) == dot(a.take(n), b.take(n)),
    decreases n,
{
    if n == 0 {
    } else {
        assert(a.take(n).drop_first() =~= a.drop_first().take(n - 1));
        assert(b.take(n).drop_first() =~= b.drop_first().take(n - 1));
        lemma_dot_prefix(a.drop_first(), b.drop_first(), n - 1);
    }
}

/// Extending the summed prefix of a dot product by one term.
pub proof fn lemma_dot_take_succ(a: Seq<int>, b: Seq<int>, i: int)
    requires
        0 <= i < a.len(),
        i < b.len(),
    ensures
        dot(a.take(i + 1), b.take(i + 1)) == dot(a.take(i), b.take(i)) + a[i] * b[i],
    decreases i,
{
    assert(a.take(i + 1)[0] == a[0]);
    assert(b.take(i + 1)[0] == b[0]);
    if i == 0 {
        assert(a.take(1).drop_first() =~= Seq::<int>::empty());
        lemma_dot_zero_left(a.take(1).drop_first(), b.take(1).drop_first());
        lemma_dot_zero_left(a.take(0), b.take(0));
    } else {
        assert(a.take(i + 1).drop_first() =~= a.drop_first().take(i));
        assert(b.take(i + 1).drop_first() =~= b.drop_first().take(i));
        assert(a.take(i).drop_first() =~= a.drop_first().take(i - 1));
        assert(b.take(i).drop_first() =~= b.drop_first().take(i - 1));
        assert(a.take(i)[0] == a[0]);
        assert(b.take(i)[0] == b[0]);
        lemma_dot_take_succ(a.drop_first(), b.drop_first(), i - 1);
        assert(a.drop_first()[i - 1] == a[i]);
        assert(b.drop_first()[i - 1] == b[i]);
    }
}

/// When the left argument is zero from position `n` on, the dot product
/// only reads the first `n` entries.
pub proof fn lemma_dot_zero_tail(a: Seq<int>, b: Seq<int>, n: int)
    requires
        0 <= n <= a.len(),
        n <= b.len(),
        forall|m: int| n <= m < a.len() ==> #[trigger] a[m] == 0,
    ensures
        dot(a, b) == dot(a.take(n), b.take(n)),
    decreases n,
{
    if n == 0 {
        lemma_dot_zero_left(a, b);
        lemma_dot_zero_left(a.take(0), b.take(0));
    } else {
        assert(a.take(n)[0] == a[0]);
        assert(b.take(n)[0] == b[0]);
        assert(a.take(n).drop_first() =~= a.drop_first().take(n - 1));
        assert(b.take(n).drop_first() =~= b.drop_first().take(n - 1));
        assert forall|m: int| n - 1 <= m < a.drop_first().len() implies #[trigger] a.drop_first()[m]
            == 0 by {
            assert(a[m + 1] == 0);
        }
        lemma_dot_zero_tail(a.drop_first(), b.drop_first(), n - 1);
    }
}

/// Exchanging the order of summation: the dot product of a weighted row
/// combination against `b` is the weighted sum of the rows' dot products.
pub proof fn lemma_row_times_dot(s: Seq<int>, m: Seq<Seq<int>>, b: Seq<int>, w: nat)
    requires
        s.len() == m.len(),
        b.len() == w,
        forall|i: int| 0 <= i < m.len() ==> (#[trigger] m[i]).len() == w,
    ensures
        dot(row_times(s, m, w), b) == wsum(s, m, b),
    decreases s.len(),
{
    if s.len() == 0 {
        lemma_dot_zero_left(row_times(s, m, w), b);
    } else {
        let st = s.drop_first();
        let mt = m.drop_first();
        assert forall|j: int| 0 <= j < w implies #[trigger] row_times(s, m, w)[j] == s[0] * m[0][j]
            + row_times(st, mt, w)[j] by {
            assert(col(m, j).drop_first() =~= col(mt, j));
            assert(dot(s, col(m, j)) == s[0] * m[0][j] + dot(st, col(mt, j)));
        }
        assert(row_times(s, m, w) =~= vadd(vscale(s[0], m[0]), row_times(st, mt, w)));
        lemma_dot_add_left(vscale(s[0], m[0]), row_times(st, mt, w), b);
        lemma_dot_scale_left(s[0], m[0], b);
        lemma_row_times_dot(st, mt, b, w);
    }
}

/// Congruent right arguments give congruent dot products.
pub proof fn lemma_dot_cong_right(a: Seq<int>, b: Seq<int>, b2: Seq<int>)
    requires
        b.len() == b2.len(),
        forall|k: int| 0 <= k < b.len() ==> cong(#[trigger] b[k], b2[k]),
    ensures
        cong(dot(a, b), dot(a, b2)),
    decreases a.len(),
{
    if a.len() == 0 || b.len() == 0 {
        lemma_cong_refl(0);
    } else {
        assert(cong(b[0], b2[0]));
        lemma_cong_refl(a[0]);
        lemma_cong_mul(a[0], b[0], a[0], b2[0]);
        assert forall|k: int| 0 <= k < b.drop_first().len() implies cong(
            #[trigger] b.drop_first()[k],
            b2.drop_first()[k],
        ) by {
            assert(cong(b[k + 1], b2[k + 1]));
        }
        lemma_dot_cong_right(a.drop_first(), b.drop_first(), b2.drop_first());
        lemma_cong_add(a[0] * b[0], dot(a.drop_first(), b.drop_first()), a[0] * b2[0],
            dot(a.drop_first(), b2.drop_first()));
    }
}

/// Weighted sums of rowwise-congruent dot products are congruent.
pub proof fn lemma_wsum_cong(s: Seq<int>, m1: Seq<Seq<int>>, b1: Seq<int>, m2: Seq<Seq<int>>, b2: Seq<int>)
    requires
        m1.len() == m2.len(),
        forall|i: int| 0 <= i < m1.len() ==> cong(#[trigger] dot(m1[i], b1), dot(m2[i], b2)),
    ensures
        cong(wsum(s, m1, b1), wsum(s, m2, b2)),
    decreases s.len(),
{
    if s.len() == 0 || m1.len() == 0 {
        lemma_cong_refl(0);
    } else {
        assert(cong(dot(m1[0], b1), dot(m2[0], b2)));
        lemma_cong_refl(s[0]);
        lemma_cong_mul(s[0], dot(m1[0], b1), s[0], dot(m2[0], b2));
        assert forall|i: int| 0 <= i < m1.drop_first().len() implies cong(
            #[trigger] dot(m1.drop_first()[i], b1),
            dot(m2.drop_first()[i], b2),
        ) by {
            assert(cong(dot(m1[i + 1], b1), dot(m2[i + 1], b2)));
        }
        lemma_wsum_cong(s.drop_first(), m1.drop_first(), b1, m2.drop_first(), b2);
        lemma_cong_add(s[0] * dot(m1[0], b1), wsum(s.drop_first(), m1.drop_first(), b1),
            s[0] * dot(m2[0], b2), wsum(s.drop_first(), m2.drop_first(), b2));
    }
}

/// A weighted sum of row dot products is the dot product against the
/// vector of those row dot products.
pub proof fn lemma_wsum_as_dot(s: Seq<int>, m: Seq<Seq<int>>, b: Seq<int>)
    requires
        s.len() == m.len(),
    ensures
        wsum(s, m, b) == dot(s, Seq::new(m.len(), |i: int| dot(m[i], b))),
    decreases s.len(),
{
    let d = Seq::new(m.len(), |i: int| dot(m[i], b));
    if s.len() == 0 {
    } else {
        lemma_wsum_as_dot(s.drop_first(), m.drop_first(), b);
        assert(d.drop_first() =~= Seq::new(m.drop_first().len(), |i: int| dot(
            m.drop_first()[i],
            b,
        )));
        assert(d[0] == dot(m[0], b));
    }
}

/// A scalar factor moves out of the right argument of a dot product.
pub proof fn lemma_dot_scale_right(c: int, a: Seq<int>, b: Seq<int>)
    ensures
        dot(a, vscale(c, b)) == c * dot(a, b),
    decreases a.len(),
{
    let s = vscale(c, b);
    if a.len() == 0 || b.len() == 0 {
        assert(c * dot(a, b) == 0) by (nonlinear_arith)
            requires
                dot(a, b) == 0,
        ;
    } else {
        assert(s.drop_first() =~= vscale(c, b.drop_first()));
        lemma_dot_scale_right(c, a.drop_first(), b.drop_first());
        assert(a[0] * (c * b[0]) + c * dot(a.drop_first(), b.drop_first())
            == c * (a[0] * b[0] + dot(a.drop_first(), b.drop_first()))) by (nonlinear_arith);
    }
}

/// A weighted sum over entrywise-zero rows is zero.
pub proof fn lemma_wsum_zero(s: Seq<int>, m: Seq<Seq<int>>, b: Seq<int>)
    requires
        forall|i: int, j: int|
            0 <= i < m.len() && 0 <= j < m[i].len() ==> #[trigger] m[i][j] == 0,
    ensures
        wsum(s, m, b) == 0,
    decreases s.len(),
{
    if s.len() == 0 || m.len() == 0 {
    } else {
        lemma_dot_zero_left(m[0], b);
        assert(s[0] * dot(m[0], b) == 0) by (nonlinear_arith)
            requires
                dot(m[0], b) == 0,
        ;
        assert forall|i: int, j: int|
            0 <= i < m.drop_first().len() && 0 <= j < m.drop_first()[i].len() implies #[trigger] m.drop_first()[i][j]
            == 0 by {
            assert(m[i + 1][j] == 0);
        }
        lemma_wsum_zero(s.drop_first(), m.drop_first(), b);
    }
}

/// Changing one entry of the right argument shifts the dot product by
/// the left entry times the change.
pub proof fn lemma_dot_update_right(a: Seq<int>, b: Seq<int>, c: int, x: int)
    requires
        a.len() == b.len(),
        0 <= c < b.len(),
    ensures
        dot(a, b.update(c, x)) == dot(a, b) + a[c] * (x - b[c]),
    decreases a.len(),
{
    let b2 = b.update(c, x);
    if c == 0 {
        assert(b2.drop_first() =~= b.drop_first());
        assert(a[0] * x == a[0] * b[0] + a[0] * (x - b[0])) by (nonlinear_arith);
    } else {
        assert(b2.drop_first() =~= b.drop_first().update(c - 1, x));
        lemma_dot_update_right(a.drop_first(), b.drop_first(), c - 1, x);
        assert(a.drop_first()[c - 1] == a[c]);
        assert(b.drop_first()[c - 1] == b[c]);
    }
}

} // verus!
