//! The incremental row reducer.
//!
//! An [`Eschelon`] tracks the accepted coefficient rows of a receiving
//! node, a row-reduced form of them whose pivot columns strictly
//! increase, and a transform matrix witnessing the reduction: at all
//! times `transform * padded(coefficients) == eschelon` row by row over
//! the scalar field, where the coefficient rows are padded to a square
//! system by unit rows below the filled prefix.

use vstd::prelude::*;
use curve25519_dalek::scalar::Scalar;
use crate::field::{sval, svals, smat, scalar_zero, scalar_one, scalar_from_u8, scalar_add,
    scalar_sub, scalar_mul, scalar_invert, scalar_is_zero, ord, cong, in_field, lemma_cong_refl,
    lemma_cong_trans, lemma_cong_sym, lemma_cong_add, lemma_cong_sub, lemma_cong_mul,
    lemma_cong_in_field, lemma_in_field_not_cong_zero, lemma_sval_in_field};
use crate::linalg::{dot, col, unit, identity, pivot, u8vals, row_times, mat_mul, mat_cong, vcomb,
    vadd, vscale, wsum, lemma_dot_zero_left, lemma_dot_zero_right, lemma_dot_add_left,
    lemma_dot_unit, lemma_dot_skip,
    lemma_dot_scale_left, lemma_dot_scale_right, lemma_dot_cong_left, lemma_dot_cong_right,
    lemma_dot_comb_left,
    lemma_dot_prefix, lemma_dot_take_succ, lemma_dot_zero_tail, lemma_dot_update_right,
    lemma_row_times_dot, lemma_wsum_cong, lemma_wsum_zero, lemma_pivot_props, lemma_pivot_is,
    lemma_pivot_beyond};
use crate::CodingError;

verus! {

/// Coefficient rows padded to a square system: below the `c.len()`
/// filled rows stand the unit rows completing the square.
pub open spec fn padded(c: Seq<Seq<int>>, k: nat) -> Seq<Seq<int>> {
    c + Seq::new((k - c.len()) as nat, |i: int| unit(k, c.len() + i))
}

/// The weights of one scaled combination: `al` is a nonzero field
/// element, and `al * v` is congruent, entry by entry, to the rows of
/// `c` combined with the weights `lam`.
pub open spec fn scaled_combo(al: int, lam: Seq<int>, v: Seq<int>, c: Seq<Seq<int>>) -> bool {
    &&& !cong(al, 0)
    &&& lam.len() == c.len()
    &&& forall|j: int| 0 <= j < v.len() ==> cong(al * #[trigger] v[j], dot(lam, col(c, j)))
}

/// A vector lies in the scaled row span of `c`: some nonzero field
/// multiple of it is congruent to a linear combination of the rows.
/// Over the prime field this is exactly membership in the row span.
pub open spec fn in_scaled_span(v: Seq<int>, c: Seq<Seq<int>>) -> bool {
    exists|al: int, lam: Seq<int>| scaled_combo(al, lam, v, c)
}

/// The weights of one plain combination: `v` is congruent, entry by
/// entry, to the rows of `m` combined with the weights `lam`.
pub open spec fn plain_combo(lam: Seq<int>, v: Seq<int>, m: Seq<Seq<int>>) -> bool {
    &&& lam.len() == m.len()
    &&& forall|j: int| 0 <= j < v.len() ==> cong(#[trigger] v[j], dot(lam, col(m, j)))
}

/// A vector lies in the row span of `m`: it is congruent to a linear
/// combination of the rows.
pub open spec fn in_span(v: Seq<int>, m: Seq<Seq<int>>) -> bool {
    exists|lam: Seq<int>| plain_combo(lam, v, m)
}

/// Tracks the accepted coefficient rows, their row-reduced form, and
/// the transform that witnesses the reduction.
pub struct Eschelon {
    coefficients: Vec<Vec<Scalar>>,
    eschelon: Vec<Vec<Scalar>>,
    transform: Vec<Vec<Scalar>>,
}

impl Eschelon {
    /// The dimension `K` of the system.
    pub closed spec fn size(self) -> nat {
        self.transform@.len()
    }

    /// The number of accepted rows.
    pub closed spec fn rows(self) -> nat {
        self.coefficients@.len()
    }

    /// The accepted coefficient rows, as field residues.
    pub closed spec fn coeffs(self) -> Seq<Seq<int>> {
        smat(self.coefficients@)
    }

    /// The row-reduced form, as field residues.
    pub closed spec fn ech(self) -> Seq<Seq<int>> {
        smat(self.eschelon@)
    }

    /// The transform matrix, as field residues.
    pub closed spec fn tr(self) -> Seq<Seq<int>> {
        smat(self.transform@)
    }

    /// The structural invariant: shapes; the witness identity
    /// `transform * padded(coefficients) == eschelon`; the block shape of
    /// the transform (columns at and beyond the filled prefix are zero in
    /// the filled rows, unit rows below); and strictly increasing pivots
    /// with no zero rows in the reduced form.
    pub closed spec fn wf(self) -> bool {
        let k = self.size();
        let r = self.rows();
        &&& r <= k
        &&& self.ech().len() == r
        &&& forall|i: int| 0 <= i < r ==> (#[trigger] self.coeffs()[i]).len() == k
        &&& forall|i: int| 0 <= i < r ==> (#[trigger] self.ech()[i]).len() == k
        &&& forall|i: int| 0 <= i < k ==> (#[trigger] self.tr()[i]).len() == k
        &&& forall|i: int, j: int|
            0 <= i < r && 0 <= j < k ==> cong(
                #[trigger] dot(self.tr()[i], col(padded(self.coeffs(), k), j)),
                self.ech()[i][j],
            )
        &&& forall|i: int, c: int| 0 <= i < r && r <= c < k ==> #[trigger] self.tr()[i][c] == 0
        &&& forall|i: int| r <= i < k ==> #[trigger] self.tr()[i] == unit(k, i)
        &&& forall|i: int| 0 <= i < r ==> #[trigger] pivot(self.ech()[i]) < k
        &&& forall|i: int|
            0 <= i < r - 1 ==> #[trigger] pivot(self.ech()[i]) < pivot(self.ech()[i + 1])
    }
}

/// Builds the identity matrix of scalars.
fn identity_matrix(k: usize) -> (m: Vec<Vec<Scalar>>)
    ensures
        m@.len() == k,
        forall|i: int| 0 <= i < k ==> (#[trigger] m@[i])@.len() == k,
        smat(m@) == identity(k as nat),
{
    let mut m: Vec<Vec<Scalar>> = Vec::new();
    let mut i: usize = 0;
    while i < k
        invariant
            i <= k,
            m@.len() == i,
            forall|a: int| 0 <= a < i ==> (#[trigger] m@[a])@.len() == k,
            forall|a: int| 0 <= a < i ==> #[trigger] smat(m@)[a] == unit(k as nat, a),
        decreases k - i,
    {
        let mut row: Vec<Scalar> = Vec::new();
        let mut j: usize = 0;
        while j < k
            invariant
                j <= k,
                row@.len() == j,
                forall|b: int| 0 <= b < j ==> #[trigger] sval(row@[b]) == unit(k as nat, i as int)[b],
            decreases k - j,
        {
            if j == i {
                row.push(scalar_one());
            } else {
                row.push(scalar_zero());
            }
            j += 1;
        }
        proof {
            assert(svals(row@) =~= unit(k as nat, i as int));
        }
        let ghost old_m = m@;
        let ghost row_len = row@.len();
        m.push(row);
        proof {
            assert forall|a: int| 0 <= a < i + 1 implies #[trigger] smat(m@)[a] == unit(
                k as nat,
                a,
            ) by {
                if a < i {
                    assert(smat(old_m)[a] == unit(k as nat, a));
                    assert(m@[a] == old_m[a]);
                }
            }
        }
        i += 1;
    }
    proof {
        assert(smat(m@) =~= identity(k as nat));
    }
    m
}

/// Copies a row of scalars.
fn copy_row(v: &Vec<Scalar>) -> (r: Vec<Scalar>)
    ensures
        r@ == v@,
{
    let mut r: Vec<Scalar> = Vec::new();
    let mut i: usize = 0;
    while i < v.len()
        invariant
            i <= v@.len(),
            r@ == v@.take(i as int),
        decreases v@.len() - i,
    {
        r.push(v[i]);
        proof {
            assert(v@.take(i + 1) =~= v@.take(i as int).push(v@[i as int]));
        }
        i += 1;
    }
    proof {
        assert(v@.take(v@.len() as int) =~= v@);
    }
    r
}

/// The position of the first nonzero entry of a row, if any: the
/// executable counterpart of [`pivot`].
fn first_entry(v: &Vec<Scalar>) -> (r: Option<usize>)
    ensures
        match r {
            Some(p) => p as int == pivot(svals(v@)) && (p as int) < v@.len(),
            None => pivot(svals(v@)) == v@.len(),
        },
{
    let mut i: usize = 0;
    while i < v.len()
        invariant
            i <= v@.len(),
            forall|m: int| 0 <= m < i ==> #[trigger] svals(v@)[m] == 0,
        decreases v@.len() - i,
    {
        if !scalar_is_zero(&v[i]) {
            proof {
                lemma_pivot_is(svals(v@), i as int);
            }
            return Some(i);
        }
        i += 1;
    }
    proof {
        if v@.len() > 0 {
            lemma_pivot_beyond(svals(v@), v@.len() - 1);
            lemma_pivot_props(svals(v@));
        }
    }
    None
}

/// Computes a functional separating the reduced candidate row from the
/// span of the reduced rows: orthogonal to every reduced row, it pairs
/// with the candidate to a concrete nonzero residue. The candidate's
/// pivot must differ from every reduced row's pivot, and the reduced
/// rows' pivots must strictly increase. Works without any inversion: a
/// fraction-free back-substitution rescales the partial functional by
/// each pivot instead of dividing by it.
#[verifier::rlimit(100)]
fn separating_certificate(ech: &Vec<Vec<Scalar>>, w: &Vec<Scalar>, w_piv: usize, k: usize) -> (r: (
    Vec<Scalar>,
    Scalar,
))
    requires
        ech@.len() <= k,
        forall|m: int| 0 <= m < ech@.len() ==> (#[trigger] ech@[m])@.len() == k,
        w@.len() == k,
        w_piv as int == pivot(svals(w@)),
        w_piv < k,
        forall|m: int| 0 <= m < ech@.len() ==> #[trigger] pivot(svals(ech@[m]@)) < k,
        forall|m: int| 0 <= m < ech@.len() ==> #[trigger] pivot(svals(ech@[m]@)) != w_piv as int,
        forall|m: int|
            0 <= m < ech@.len() - 1 ==> #[trigger] pivot(svals(ech@[m]@)) < pivot(
                svals(ech@[m + 1]@),
            ),
    ensures
        r.0@.len() == k,
        forall|m: int|
            0 <= m < ech@.len() ==> cong(#[trigger] dot(svals(ech@[m]@), svals(r.0@)), 0),
        cong(dot(svals(w@), svals(r.0@)), sval(r.1)),
        sval(r.1) != 0,
{
    let rn = ech.len();
    let ghost emat = Seq::new(rn as nat, |x: int| svals(ech@[x]@));
    // how many rows have their pivot left of the candidate's
    let mut np: usize = 0;
    while np < rn
        invariant
            ech@.len() == rn,
            emat == Seq::new(rn as nat, |x: int| svals(ech@[x]@)),
            forall|m: int| 0 <= m < rn ==> (#[trigger] ech@[m])@.len() == k,
            forall|m: int| 0 <= m < rn ==> #[trigger] pivot(svals(ech@[m]@)) < k,
            forall|m: int| 0 <= m < rn ==> #[trigger] pivot(svals(ech@[m]@)) != w_piv as int,
            forall|m: int|
                0 <= m < rn - 1 ==> #[trigger] pivot(svals(ech@[m]@)) < pivot(svals(ech@[m + 1]@)),
            np <= rn,
            forall|m: int| 0 <= m < np ==> #[trigger] pivot(svals(ech@[m]@)) < w_piv as int,
        ensures
            np <= rn,
            forall|m: int| 0 <= m < np ==> #[trigger] pivot(svals(ech@[m]@)) < w_piv as int,
            np < rn ==> pivot(svals(ech@[np as int]@)) > w_piv as int,
        decreases rn - np,
    {
        let pv = match first_entry(&ech[np]) {
            Some(p) => p,
            None => {
                // a reduced row is never all zero
                proof {
                    assert(pivot(svals(ech@[np as int]@)) < k);
                    assert(false);
                }
                return (Vec::new(), scalar_one());
            },
        };
        if pv > w_piv {
            break ;
        }
        proof {
            assert(pivot(svals(ech@[np as int]@)) < w_piv as int);
        }
        np += 1;
    }
    proof {
        assert forall|m: int| np <= m < rn implies #[trigger] pivot(svals(ech@[m]@))
            > w_piv as int by {
            lemma_pivot_span(emat, np as int, m);
            assert(emat[np as int] == svals(ech@[np as int]@));
            assert(emat[m] == svals(ech@[m]@));
        }
    }
    // the functional starts as the unit at the candidate's pivot
    let mut u: Vec<Scalar> = Vec::new();
    let mut z: usize = 0;
    while z < k
        invariant
            z <= k,
            u@.len() == z,
            forall|c: int| 0 <= c < z ==> #[trigger] sval(u@[c]) == 0,
        decreases k - z,
    {
        u.push(scalar_zero());
        z += 1;
    }
    u[w_piv] = scalar_one();
    let mut scl = scalar_one();
    proof {
        assert(svals(u@)[w_piv as int] == 1);
    }
    let mut m = np;
    while m > 0
        invariant
            ech@.len() == rn,
            rn <= k,
            w_piv < k,
            np <= rn,
            forall|mm: int| 0 <= mm < rn ==> (#[trigger] ech@[mm])@.len() == k,
            forall|mm: int| 0 <= mm < rn ==> #[trigger] pivot(svals(ech@[mm]@)) < k,
            forall|mm: int| 0 <= mm < rn ==> #[trigger] pivot(svals(ech@[mm]@)) != w_piv as int,
            forall|mm: int|
                0 <= mm < rn - 1 ==> #[trigger] pivot(svals(ech@[mm]@)) < pivot(
                    svals(ech@[mm + 1]@),
                ),
            forall|mm: int| 0 <= mm < np ==> #[trigger] pivot(svals(ech@[mm]@)) < w_piv as int,
            m <= np,
            u@.len() == k,
            svals(u@)[w_piv as int] == sval(scl),
            sval(scl) != 0,
            forall|c: int| w_piv < c < k ==> #[trigger] svals(u@)[c] == 0,
            m > 0 ==> forall|c: int|
                0 <= c <= pivot(svals(ech@[(m - 1) as int]@)) ==> #[trigger] svals(u@)[c] == 0,
            forall|mm: int| m <= mm < np ==> cong(#[trigger] dot(svals(ech@[mm]@), svals(u@)), 0),
        decreases m,
    {
        m -= 1;
        let ghost mi = m as int;
        let ghost u0 = svals(u@);
        let ghost emv = svals(ech@[mi]@);
        let q = match first_entry(&ech[m]) {
            Some(p) => p,
            None => {
                // a reduced row is never all zero
                proof {
                    assert(pivot(svals(ech@[mi]@)) < k);
                    assert(false);
                }
                return (Vec::new(), scalar_one());
            },
        };
        // the current imbalance of row m against the functional
        let mut d = scalar_zero();
        let mut c: usize = 0;
        while c < k
            invariant
                ech@.len() == rn,
                0 <= mi < rn,
                mi == m as int,
                forall|mm: int| 0 <= mm < rn ==> (#[trigger] ech@[mm])@.len() == k,
                u@.len() == k,
                u0 == svals(u@),
                emv == svals(ech@[mi]@),
                c <= k,
                cong(sval(d), dot(emv.take(c as int), u0.take(c as int))),
            decreases k - c,
        {
            let term = scalar_mul(&ech[m][c], &u[c]);
            let ghost d0 = sval(d);
            d = scalar_add(&d, &term);
            proof {
                lemma_cong_add(d0, sval(term), dot(emv.take(c as int), u0.take(c as int)),
                    emv[c as int] * u0[c as int]);
                lemma_cong_trans(
                    sval(d),
                    d0 + sval(term),
                    dot(emv.take(c as int), u0.take(c as int)) + emv[c as int] * u0[c as int],
                );
                lemma_dot_take_succ(emv, u0, c as int);
            }
            c += 1;
        }
        proof {
            assert(emv.take(k as int) =~= emv);
            assert(u0.take(k as int) =~= u0);
            assert(cong(sval(d), dot(emv, u0)));
        }
        let piv = ech[m][q];
        proof {
            lemma_pivot_props(emv);
            assert(sval(piv) == emv[q as int]);
            assert(sval(piv) != 0);
            assert(u0[q as int] == 0);
        }
        // rescale the functional by the pivot
        let mut c2: usize = 0;
        while c2 < k
            invariant
                u@.len() == k,
                u0.len() == k,
                c2 <= k,
                sval(piv) == emv[q as int],
                forall|cc: int|
                    0 <= cc < c2 ==> cong(#[trigger] svals(u@)[cc], sval(piv) * u0[cc]),
                forall|cc: int| 0 <= cc < c2 && u0[cc] == 0 ==> #[trigger] svals(u@)[cc] == 0,
                forall|cc: int| c2 <= cc < k ==> #[trigger] svals(u@)[cc] == u0[cc],
            decreases k - c2,
        {
            let nv = scalar_mul(&piv, &u[c2]);
            let ghost before = svals(u@);
            u[c2] = nv;
            proof {
                assert(svals(u@) =~= before.update(c2 as int, sval(nv)));
                assert(before[c2 as int] == u0[c2 as int]);
                assert(cong(sval(nv), sval(piv) * u0[c2 as int]));
                if u0[c2 as int] == 0 {
                    assert(sval(piv) * 0 == 0) by (nonlinear_arith);
                    lemma_sval_in_field(nv);
                    crate::field::lemma_cong_in_field(sval(nv), 0);
                }
                assert forall|cc: int| 0 <= cc < c2 + 1 implies cong(
                    #[trigger] svals(u@)[cc],
                    sval(piv) * u0[cc],
                ) by {
                    if cc < c2 {
                        assert(svals(u@)[cc] == before[cc]);
                    }
                }
            }
            c2 += 1;
        }
        // absorb the imbalance at the row's pivot column
        let negd = scalar_sub(&scalar_zero(), &d);
        let ghost umid = svals(u@);
        u[q] = negd;
        let ghost sclv = sval(scl);
        let newscl = scalar_mul(&piv, &scl);
        scl = newscl;
        proof {
            let uv = svals(u@);
            assert(uv =~= umid.update(q as int, sval(negd)));
            assert(cong(sval(negd), 0 - sval(d)));
            assert(umid[q as int] == 0);
            // row m is now orthogonal to the functional
            lemma_dot_cong_right(emv, umid, vscale(sval(piv), u0));
            lemma_dot_scale_right(sval(piv), emv, u0);
            lemma_dot_update_right(emv, umid, q as int, sval(negd));
            lemma_cong_refl(emv[q as int]);
            lemma_cong_mul(emv[q as int], sval(negd), emv[q as int], 0 - sval(d));
            lemma_cong_add(dot(emv, umid), emv[q as int] * sval(negd), sval(piv) * dot(emv, u0),
                emv[q as int] * (0 - sval(d)));
            lemma_cong_refl(sval(piv));
            lemma_cong_sym(sval(d), dot(emv, u0));
            lemma_cong_mul(sval(piv), dot(emv, u0), sval(piv), sval(d));
            lemma_cong_refl(emv[q as int] * (0 - sval(d)));
            lemma_cong_add(sval(piv) * dot(emv, u0), emv[q as int] * (0 - sval(d)),
                sval(piv) * sval(d), emv[q as int] * (0 - sval(d)));
            lemma_cong_trans(
                dot(emv, uv),
                sval(piv) * dot(emv, u0) + emv[q as int] * (0 - sval(d)),
                sval(piv) * sval(d) + emv[q as int] * (0 - sval(d)),
            );
            assert(sval(piv) * sval(d) + emv[q as int] * (0 - sval(d)) == 0) by (nonlinear_arith)
                requires
                    sval(piv) == emv[q as int],
            ;
            assert(cong(dot(emv, uv), 0));
            // previously processed rows stay orthogonal
            assert forall|mm: int| mi + 1 <= mm < np implies cong(
                #[trigger] dot(svals(ech@[mm]@), uv),
                0,
            ) by {
                let ev2 = svals(ech@[mm]@);
                assert(cong(dot(ev2, u0), 0));
                lemma_dot_cong_right(ev2, umid, vscale(sval(piv), u0));
                lemma_dot_scale_right(sval(piv), ev2, u0);
                lemma_dot_update_right(ev2, umid, q as int, sval(negd));
                assert(ev2[q as int] == 0) by {
                    lemma_pivot_props(ev2);
                    let em2 = Seq::new(rn as nat, |x: int| svals(ech@[x]@));
                    assert forall|x: int| 0 <= x < em2.len() - 1 implies #[trigger] pivot(em2[x])
                        < pivot(em2[x + 1]) by {
                        assert(em2[x] == svals(ech@[x]@));
                        assert(em2[x + 1] == svals(ech@[x + 1]@));
                    }
                    lemma_pivot_span(em2, mi, mm);
                    assert(em2[mi] == emv);
                    assert(em2[mm] == ev2);
                    assert((q as int) < pivot(ev2));
                }
                assert(ev2[q as int] * (sval(negd) - umid[q as int]) == 0) by (nonlinear_arith)
                    requires
                        ev2[q as int] == 0,
                ;
                lemma_cong_refl(sval(piv));
                lemma_cong_mul(sval(piv), dot(ev2, u0), sval(piv), 0);
                assert(sval(piv) * 0 == 0) by (nonlinear_arith);
                lemma_cong_trans(dot(ev2, umid), sval(piv) * dot(ev2, u0), 0);
            }
            // the scale entry mirrors the running product
            assert(uv[w_piv as int] == sval(newscl)) by {
                assert(uv[w_piv as int] == umid[w_piv as int]);
                assert(cong(umid[w_piv as int], sval(piv) * sclv));
                assert(cong(sval(newscl), sval(piv) * sclv));
                lemma_sval_in_field(u@[w_piv as int]);
                lemma_sval_in_field(newscl);
                crate::field::lemma_residue_unique(umid[w_piv as int], sval(piv) * sclv);
                crate::field::lemma_residue_unique(sval(newscl), sval(piv) * sclv);
            }
            // zeros below the next row's pivot survive
            if m > 0 {
                assert forall|cc: int| 0 <= cc <= pivot(svals(ech@[(m - 1) as int]@)) implies
                    #[trigger] uv[cc] == 0 by {
                    assert(pivot(svals(ech@[(m - 1) as int]@)) < pivot(emv));
                    assert(cc < q as int);
                    assert(u0[cc] == 0);
                    assert(umid[cc] == 0);
                }
            }
        }
    }
    // rows whose pivot lies right of the candidate's never meet the
    // functional's support
    proof {
        let uv = svals(u@);
        assert forall|mm: int| np <= mm < rn implies cong(
            #[trigger] dot(svals(ech@[mm]@), uv),
            0,
        ) by {
            let ev2 = svals(ech@[mm]@);
            lemma_pivot_props(ev2);
            assert forall|cc: int| 0 <= cc < k implies #[trigger] uv[cc] == vscale(0, uv)[cc]
                || ev2[cc] == 0 by {
                if cc < pivot(ev2) {
                    assert(ev2[cc] == 0);
                } else {
                    assert(cc > w_piv as int);
                    assert(uv[cc] == 0);
                    assert(vscale(0, uv)[cc] == 0 * uv[cc]);
                }
            }
            lemma_dot_skip(ev2, uv, vscale(0, uv));
            lemma_dot_scale_right(0, ev2, uv);
            assert(0 * dot(ev2, uv) == 0) by (nonlinear_arith);
            lemma_cong_refl(0);
        }
    }
    // the candidate pairs with the functional to its pivot entry times
    // the accumulated scale
    let cert = scalar_mul(&w[w_piv], &scl);
    proof {
        let uv = svals(u@);
        let wv = svals(w@);
        lemma_pivot_props(wv);
        assert(wv[w_piv as int] != 0);
        assert(sval(w@[w_piv as int]) == wv[w_piv as int]);
        assert(sval(cert) != 0);
        let base = Seq::new(k as nat, |c: int| 0int);
        assert forall|cc: int| 0 <= cc < k implies #[trigger] uv[cc] == base.update(
            w_piv as int,
            uv[w_piv as int],
        )[cc] || wv[cc] == 0 by {
            if cc < w_piv as int {
                assert(wv[cc] == 0);
            } else if cc > w_piv as int {
                assert(uv[cc] == 0);
            }
        }
        lemma_dot_skip(wv, uv, base.update(w_piv as int, uv[w_piv as int]));
        lemma_dot_update_right(wv, base, w_piv as int, uv[w_piv as int]);
        lemma_dot_zero_right(wv, base);
        assert(dot(wv, uv) == wv[w_piv as int] * (uv[w_piv as int] - 0));
        assert(uv[w_piv as int] == sval(scl));
        assert(cong(sval(cert), wv[w_piv as int] * sval(scl)));
        lemma_cong_sym(sval(cert), wv[w_piv as int] * sval(scl));
    }
    (u, cert)
}

impl Eschelon {
    /// An empty system of dimension `size`: no accepted rows, and the
    /// transform starts as the identity.
    pub fn new(size: usize) -> (r: Self)
        ensures
            r.wf(),
            r.size() == size,
            r.rows() == 0,
            r.coeffs() == Seq::<Seq<int>>::empty(),
            r.ech() == Seq::<Seq<int>>::empty(),
            r.tr() == identity(size as nat),
    {
        let transform = identity_matrix(size);
        let r = Eschelon { coefficients: Vec::new(), eschelon: Vec::new(), transform };
        proof {
            assert(r.coeffs() =~= Seq::<Seq<int>>::empty());
            assert(r.ech() =~= Seq::<Seq<int>>::empty());
            assert forall|i: int| 0 <= i < size implies #[trigger] r.tr()[i] == unit(
                size as nat,
                i,
            ) by {
                assert(identity(size as nat)[i] == unit(size as nat, i));
            }
        }
        r
    }

    /// The already-full system of a source node: all three matrices are
    /// the identity.
    pub fn new_identity(size: usize) -> (r: Self)
        ensures
            r.wf(),
            r.size() == size,
            r.rows() == size,
            r.coeffs() == identity(size as nat),
            r.ech() == identity(size as nat),
            r.tr() == identity(size as nat),
    {
        let coefficients = identity_matrix(size);
        let eschelon = identity_matrix(size);
        let transform = identity_matrix(size);
        let r = Eschelon { coefficients, eschelon, transform };
        proof {
            let k = size as nat;
            let idm = identity(k);
            assert(padded(r.coeffs(), k) =~= idm);
            assert forall|i: int, j: int|
                0 <= i < k && 0 <= j < k implies cong(
                #[trigger] dot(r.tr()[i], col(padded(r.coeffs(), k), j)),
                r.ech()[i][j],
            ) by {
                assert(r.tr()[i] == identity(k)[i]);
                assert(r.tr()[i] == unit(k, i));
                assert(col(padded(r.coeffs(), k), j) =~= col(idm, j));
                assert(col(idm, j).len() == k);
                lemma_dot_unit(k, i, col(idm, j));
                assert(col(idm, j)[i] == idm[i][j]);
                assert(r.ech()[i][j] == idm[i][j]);
                assert(dot(unit(k, i), col(idm, j)) == idm[i][j]);
                assert(col(padded(r.coeffs(), k), j) == col(idm, j));
                lemma_cong_refl(idm[i][j]);
            }
            assert forall|i: int| 0 <= i < k implies #[trigger] pivot(r.ech()[i]) == i by {
                assert(r.ech()[i] == identity(k)[i]);
                assert(r.ech()[i] == unit(k, i));
                assert(unit(k, i)[i] == 1);
                lemma_pivot_is(unit(k, i), i);
            }
        }
        r
    }

    /// The structural facts a well-formed system guarantees: one
    /// coefficient row and one reduced row per accepted row, all of the
    /// system's width; and the reduced form has no zero rows and
    /// strictly increasing pivot columns.
    pub proof fn lemma_shape(self)
        requires
            self.wf(),
        ensures
            self.coeffs().len() == self.rows(),
            self.ech().len() == self.rows(),
            self.tr().len() == self.size(),
            self.rows() <= self.size(),
            forall|i: int|
                0 <= i < self.rows() ==> (#[trigger] self.coeffs()[i]).len() == self.size(),
            forall|i: int|
                0 <= i < self.rows() ==> (#[trigger] self.ech()[i]).len() == self.size(),
            forall|i: int|
                0 <= i < self.size() ==> (#[trigger] self.tr()[i]).len() == self.size(),
            forall|i: int| 0 <= i < self.rows() ==> #[trigger] pivot(self.ech()[i]) < self.size(),
            forall|i: int|
                0 <= i < self.rows() - 1 ==> #[trigger] pivot(self.ech()[i]) < pivot(
                    self.ech()[i + 1],
                ),
    {
    }

    /// The dimension of the system.
    pub fn dim(&self) -> (r: usize)
        ensures
            r == self.size(),
    {
        self.transform.len()
    }

    /// Whether the system is full: as many accepted rows as columns.
    pub fn is_full(&self) -> (r: bool)
        ensures
            r == (self.rows() == self.size()),
    {
        self.coefficients.len() == self.transform.len()
    }

    /// The coefficient vector of an outgoing combination: the weights
    /// `scalars`, one byte per accepted row, applied to the accepted
    /// coefficient rows.
    pub fn compound_scalars(&self, scalars: &[u8]) -> (r: Vec<Scalar>)
        requires
            self.wf(),
        ensures
            r@.len() == self.size(),
            forall|j: int|
                0 <= j < self.size() ==> cong(
                    #[trigger] svals(r@)[j],
                    dot(u8vals(scalars@), col(self.coeffs(), j)),
                ),
    {
        let k = self.transform.len();
        let n = if scalars.len() <= self.coefficients.len() {
            scalars.len()
        } else {
            self.coefficients.len()
        };
        let mut r: Vec<Scalar> = Vec::new();
        let mut j: usize = 0;
        while j < k
            invariant
                self.wf(),
                k == self.size(),
                n == if scalars@.len() <= self.rows() {
                    scalars@.len()
                } else {
                    self.rows()
                },
                j <= k,
                r@.len() == j,
                forall|a: int|
                    0 <= a < j ==> cong(
                        #[trigger] svals(r@)[a],
                        dot(u8vals(scalars@), col(self.coeffs(), a)),
                    ),
            decreases k - j,
        {
            let cj = Ghost(col(self.coeffs(), j as int));
            let sj = Ghost(u8vals(scalars@));
            let mut acc = scalar_zero();
            let mut i: usize = 0;
            while i < n
                invariant
                    self.wf(),
                    k == self.size(),
                    j < k,
                    n == if scalars@.len() <= self.rows() {
                        scalars@.len()
                    } else {
                        self.rows()
                    },
                    i <= n,
                    cj@ == col(self.coeffs(), j as int),
                    sj@ == u8vals(scalars@),
                    cong(sval(acc), dot(sj@.take(i as int), cj@.take(i as int))),
                decreases n - i,
            {
                proof {
                    assert(self.coefficients@.len() == self.rows());
                    assert(self.coeffs()[i as int] == svals(self.coefficients@[i as int]@));
                    assert(self.coeffs()[i as int].len() == k);
                }
                let term = scalar_mul(&scalar_from_u8(scalars[i]), &self.coefficients[i][j]);
                let ghost acc0 = sval(acc);
                acc = scalar_add(&acc, &term);
                proof {
                    let a = sj@[i as int];
                    let b = cj@[i as int];
                    assert(b == self.coeffs()[i as int][j as int]);
                    lemma_cong_add(acc0, sval(term), dot(sj@.take(i as int), cj@.take(i as int)),
                        a * b);
                    lemma_cong_trans(
                        sval(acc),
                        acc0 + sval(term),
                        dot(sj@.take(i as int), cj@.take(i as int)) + a * b,
                    );
                    lemma_dot_take_succ(sj@, cj@, i as int);
                }
                i += 1;
            }
            proof {
                lemma_dot_prefix(sj@, cj@, n as int);
                assert(sj@.take(n as int) == sj@.take(n as int));
            }
            let ghost racc = sval(acc);
            let ghost r0 = r@;
            r.push(acc);
            proof {
                assert(svals(r@)[j as int] == racc);
                assert forall|a: int|
                    0 <= a < j + 1 implies cong(
                    #[trigger] svals(r@)[a],
                    dot(u8vals(scalars@), col(self.coeffs(), a)),
                ) by {
                    if a < j {
                        assert(r@[a] == r0[a]);
                        assert(svals(r0)[a] == sval(r0[a]));
                    }
                }
            }
            j += 1;
        }
        r
    }
}

/// Strictly increasing pivots advance at least as fast as the row index.
proof fn lemma_pivot_span(e: Seq<Seq<int>>, a: int, b: int)
    requires
        0 <= a <= b < e.len(),
        forall|i: int| 0 <= i < e.len() - 1 ==> #[trigger] pivot(e[i]) < pivot(e[i + 1]),
    ensures
        pivot(e[b]) >= pivot(e[a]) + (b - a),
    decreases b - a,
{
    if a < b {
        lemma_pivot_span(e, a, b - 1);
    }
}

/// In a full system, the pivots stand exactly on the diagonal.
proof fn lemma_full_pivots(e: Seq<Seq<int>>, k: nat)
    requires
        e.len() == k,
        k > 0,
        forall|i: int| 0 <= i < k ==> #[trigger] pivot(e[i]) < k,
        forall|i: int| 0 <= i < k - 1 ==> #[trigger] pivot(e[i]) < pivot(e[i + 1]),
    ensures
        forall|i: int| 0 <= i < k ==> #[trigger] pivot(e[i]) == i,
{
    assert forall|i: int| 0 <= i < k implies #[trigger] pivot(e[i]) == i by {
        lemma_pivot_span(e, 0, i);
        lemma_pivot_span(e, i, k as int - 1);
        lemma_pivot_props(e[0]);
    }
}

/// The value that back-substitution aims at in column `c` of row `i`,
/// once the columns left of `j` have been eliminated: one on the
/// diagonal, zero in eliminated columns, and the scaled reduced row in
/// the columns still to come.
spec fn elim_target(evrow: Seq<int>, pvinv: int, i: int, j: int, c: int) -> int {
    if c == i {
        1
    } else if i < c < j {
        0
    } else {
        pvinv * evrow[c]
    }
}

/// When a working row with witness `tv` over the augmented system has
/// been reduced to zero, the candidate row lies in the scaled span of
/// the accepted rows: the witness entry over the candidate row is the
/// scale, and the negated prefix of the witness gives the weights.
proof fn lemma_reduced_to_zero(tv: Seq<int>, wv: Seq<int>, rowv: Seq<int>, c: Seq<Seq<int>>, k: nat)
    requires
        c.len() < k,
        tv.len() == k,
        wv.len() == k,
        rowv.len() == k,
        forall|i: int| 0 <= i < c.len() ==> (#[trigger] c[i]).len() == k,
        forall|j: int| 0 <= j < k ==> cong(#[trigger] dot(tv, col(padded(c.push(rowv), k), j)), wv[j]),
        forall|j: int| 0 <= j < k ==> #[trigger] wv[j] == 0,
        forall|cc: int| c.len() < cc < k ==> #[trigger] tv[cc] == 0,
        in_field(tv[c.len() as int]),
        tv[c.len() as int] != 0,
    ensures
        in_scaled_span(rowv, c),
{
    let r = c.len() as int;
    let al = tv[r];
    let lam = vscale(-1, tv.take(r));
    let cw = padded(c.push(rowv), k);
    assert forall|j: int| 0 <= j < rowv.len() implies cong(al * #[trigger] rowv[j], dot(lam, col(c, j))) by {
        let cj = col(cw, j);
        assert(cj.len() == k);
        assert forall|m: int| r + 1 <= m < k implies #[trigger] tv[m] == 0 by {}
        lemma_dot_zero_tail(tv, cj, r + 1);
        lemma_dot_take_succ(tv, cj, r);
        assert(cj[r] == cw[r][j]);
        assert(cw[r] == c.push(rowv)[r]);
        assert(cj[r] == rowv[j]);
        assert(cj.take(r) =~= col(c, j));
        assert(tv.take(r + 1).take(r) =~= tv.take(r));
        let x = dot(tv.take(r), col(c, j));
        assert(dot(tv, cj) == x + al * rowv[j]);
        assert(cong(dot(tv, cj), wv[j]));
        assert(wv[j] == 0);
        assert(cong(x + al * rowv[j], 0));
        lemma_dot_scale_left(-1, tv.take(r), col(c, j));
        assert(dot(lam, col(c, j)) == -1 * x);
        assert((al * rowv[j] - (-1 * x)) % ord() == (x + al * rowv[j] - 0) % ord());
    }
    lemma_in_field_not_cong_zero(al);
    assert(scaled_combo(al, lam, rowv, c));
}

impl Eschelon {
    /// Attempts to append `row` to the accepted coefficient rows,
    /// updating the reduced form and the transform. Returns `false`,
    /// leaving the state unchanged, when the row is all zero, when the
    /// system is already full, or when the row reduces to zero against
    /// the accepted rows; in each of the first and third cases a nonzero
    /// multiple of the row is a combination of the accepted rows. A full
    /// system rejects every row, and acceptance implies the row has a
    /// nonzero entry, the system had room, and the row is congruent to
    /// no combination of the reduced rows — over the field, where the
    /// reduced rows span the same space as the accepted rows, exactly
    /// linear independence. That last fact is certified at run time: on
    /// acceptance a functional orthogonal to every reduced row but
    /// pairing with the working row to a nonzero residue is computed,
    /// still without any inversion.
    #[verifier::rlimit(100)]
    #[verifier::spinoff_prover]
    pub fn add_row(&mut self, row: Vec<Scalar>) -> (accepted: bool)
        requires
            old(self).wf(),
            row@.len() == old(self).size(),
        ensures
            final(self).wf(),
            final(self).size() == old(self).size(),
            accepted ==> final(self).rows() == old(self).rows() + 1 && final(self).coeffs()
                == old(self).coeffs().push(svals(row@)) && old(self).rows() < old(self).size(),
            accepted ==> pivot(svals(row@)) < old(self).size(),
            accepted ==> !in_span(svals(row@), old(self).ech()),
            accepted && old(self).rows() == 0 ==> final(self).ech() == seq![svals(row@)],
            !accepted ==> *final(self) == *old(self),
            !accepted && old(self).rows() < old(self).size() ==> in_scaled_span(
                svals(row@),
                old(self).coeffs(),
            ),
    {
        let k = self.transform.len();
        let ghost rowv = svals(row@);
        let row_piv: usize = match first_entry(&row) {
            None => {
                proof {
                    lemma_pivot_props(rowv);
                    let c = self.coeffs();
                    let lam = Seq::new(c.len(), |m: int| 0int);
                    assert forall|j: int| 0 <= j < rowv.len() implies cong(
                        1 * #[trigger] rowv[j],
                        dot(lam, col(c, j)),
                    ) by {
                        lemma_dot_zero_left(lam, col(c, j));
                        assert(rowv[j] == 0);
                        lemma_cong_refl(0);
                    }
                    lemma_in_field_not_cong_zero(1);
                    assert(scaled_combo(1, lam, rowv, c));
                }
                return false;
            },
            Some(p) => p,
        };
        let rcur = self.coefficients.len();
        if rcur == k {
            return false;
        }
        if rcur == 0 {
            let w0 = copy_row(&row);
            self.eschelon.push(w0);
            self.coefficients.push(row);
            proof {
                let s = *self;
                let kk = k as nat;
                assert(s.coeffs() =~= old(self).coeffs().push(rowv));
                assert(s.ech() =~= seq![rowv]);
                assert(s.tr() == old(self).tr());
                assert(s.ech()[0] == rowv);
                assert(s.coeffs()[0] == rowv);
                assert forall|j: int| 0 <= j < kk implies cong(
                    #[trigger] dot(s.tr()[0], col(padded(s.coeffs(), kk), j)),
                    s.ech()[0][j],
                ) by {
                    assert(s.tr()[0] == unit(kk, 0));
                    assert(col(padded(s.coeffs(), kk), j).len() == kk);
                    lemma_dot_unit(kk, 0, col(padded(s.coeffs(), kk), j));
                    assert(col(padded(s.coeffs(), kk), j)[0] == padded(s.coeffs(), kk)[0][j]);
                    assert(padded(s.coeffs(), kk)[0] == rowv);
                    lemma_cong_refl(rowv[j]);
                }
                assert forall|i: int, c: int| 0 <= i < 1 && 1 <= c < kk implies #[trigger] s.tr()[i][c]
                    == 0 by {
                    assert(s.tr()[0] == unit(kk, 0));
                }
                assert(pivot(s.ech()[0]) == row_piv as int);
                assert(!in_span(rowv, old(self).ech())) by {
                    if in_span(rowv, old(self).ech()) {
                        let lam = choose|lam: Seq<int>|
                            plain_combo(lam, rowv, old(self).ech());
                        assert(cong(rowv[row_piv as int], dot(
                            lam,
                            col(old(self).ech(), row_piv as int),
                        )));
                        assert(col(old(self).ech(), row_piv as int).len() == 0);
                        assert(dot(lam, col(old(self).ech(), row_piv as int)) == 0);
                        lemma_pivot_props(rowv);
                        lemma_sval_in_field(row@[row_piv as int]);
                        lemma_in_field_not_cong_zero(rowv[row_piv as int]);
                        assert(false);
                    }
                }
            }
            return true;
        }
        let mut w = copy_row(&row);
        let mut t = copy_row(&self.transform[rcur]);
        let ghost kk = k as nat;
        let ghost cw = padded(old(self).coeffs().push(rowv), kk);
        proof {
            assert(self.tr()[rcur as int] == unit(kk, rcur as int));
            assert(svals(t@) == self.tr()[rcur as int]);
            assert forall|j: int| 0 <= j < kk implies cong(
                #[trigger] dot(svals(t@), col(cw, j)),
                svals(w@)[j],
            ) by {
                assert(col(cw, j).len() == kk);
                lemma_dot_unit(kk, rcur as int, col(cw, j));
                assert(col(cw, j)[rcur as int] == cw[rcur as int][j]);
                assert(cw[rcur as int] == old(self).coeffs().push(rowv)[rcur as int]);
                assert(cw[rcur as int] == rowv);
                assert(svals(w@)[j] == rowv[j]);
                lemma_cong_refl(rowv[j]);
            }
            assert(svals(t@)[rcur as int] == unit(kk, rcur as int)[rcur as int]);
        }
        let ghost mut nu: Seq<int> = Seq::new(rcur as nat, |x: int| 0int);
        proof {
            assert forall|j: int| 0 <= j < kk implies cong(
                #[trigger] svals(w@)[j],
                sval(t@[rcur as int]) * rowv[j] + dot(nu, col(old(self).ech(), j)),
            ) by {
                lemma_dot_zero_left(nu, col(old(self).ech(), j));
                assert(sval(t@[rcur as int]) == 1);
                assert(1 * rowv[j] == rowv[j]);
                assert(svals(w@)[j] == rowv[j]);
                lemma_cong_refl(rowv[j]);
            }
        }
        let mut i: usize = 0;
        while i < rcur
            invariant
                *self == *old(self),
                self.wf(),
                rcur == self.rows(),
                k == self.size(),
                kk == k as nat,
                0 < rcur < k,
                i <= rcur,
                rowv == svals(row@),
                row@.len() == k,
                w@.len() == k,
                t@.len() == k,
                cw == padded(self.coeffs().push(rowv), kk),
                forall|j: int|
                    0 <= j < kk ==> cong(#[trigger] dot(svals(t@), col(cw, j)), svals(w@)[j]),
                forall|c: int| rcur < c < k ==> #[trigger] svals(t@)[c] == 0,
                sval(t@[rcur as int]) != 0,
                nu.len() == rcur,
                forall|j: int|
                    0 <= j < kk ==> cong(
                        #[trigger] svals(w@)[j],
                        sval(t@[rcur as int]) * rowv[j] + dot(nu, col(old(self).ech(), j)),
                    ),
                forall|m: int|
                    0 <= m < i ==> #[trigger] pivot(self.ech()[m]) < pivot(svals(w@)),
            ensures
                *self == *old(self),
                i <= rcur,
                w@.len() == k,
                t@.len() == k,
                forall|j: int|
                    0 <= j < kk ==> cong(#[trigger] dot(svals(t@), col(cw, j)), svals(w@)[j]),
                forall|c: int| rcur < c < k ==> #[trigger] svals(t@)[c] == 0,
                sval(t@[rcur as int]) != 0,
                nu.len() == rcur,
                forall|j: int|
                    0 <= j < kk ==> cong(
                        #[trigger] svals(w@)[j],
                        sval(t@[rcur as int]) * rowv[j] + dot(nu, col(old(self).ech(), j)),
                    ),
                forall|m: int|
                    0 <= m < i ==> #[trigger] pivot(self.ech()[m]) < pivot(svals(w@)),
                i < rcur ==> pivot(svals(w@)) < pivot(self.ech()[i as int]),
            decreases rcur - i,
        {
            proof {
                assert(self.ech()[i as int] == svals(self.eschelon@[i as int]@));
                assert(self.ech()[i as int].len() == kk);
            }
            let e_piv: usize = match first_entry(&self.eschelon[i]) {
                Some(p) => p,
                None => {
                    // a reduced row is never all zero
                    proof {
                        assert(pivot(self.ech()[i as int]) < kk);
                        assert(false);
                    }
                    return false;
                },
            };
            let w_first: usize = match first_entry(&w) {
                Some(p) => p,
                None => {
                    proof {
                        lemma_pivot_props(svals(w@));
                        lemma_sval_in_field(t@[rcur as int]);
                        lemma_reduced_to_zero(svals(t@), svals(w@), rowv, self.coeffs(), kk);
                    }
                    return false;
                },
            };
            if e_piv < w_first {
                proof {
                    assert(pivot(self.ech()[i as int]) == e_piv as int);
                }
                i += 1;
            } else if e_piv > w_first {
                break ;
            } else {
                let p = self.eschelon[i][e_piv];
                let f = w[e_piv];
                let ghost w0 = svals(w@);
                let ghost t0 = svals(t@);
                let ghost ev = self.ech()[i as int];
                let ghost trv = self.tr()[i as int];
                let ghost pv = sval(p);
                let ghost fv = sval(f);
                proof {
                    lemma_pivot_props(ev);
                    lemma_pivot_props(w0);
                    assert(ev[e_piv as int] == pv);
                    assert(w0[e_piv as int] == fv);
                    assert(pv != 0);
                    assert(fv != 0);
                    assert(self.tr()[i as int].len() == kk);
                }
                let mut m: usize = 0;
                while m < k
                    invariant
                        *self == *old(self),
                        self.wf(),
                        rcur == self.rows(),
                        k == self.size(),
                        kk == k as nat,
                        0 < rcur < k,
                        i < rcur,
                        m <= k,
                        w@.len() == k,
                        t@.len() == k,
                        w0.len() == k,
                        t0.len() == k,
                        ev == self.ech()[i as int],
                        trv == self.tr()[i as int],
                        pv == sval(p),
                        fv == sval(f),
                        pv != 0,
                        t0[rcur as int] != 0,
                        forall|c: int| rcur < c < k ==> #[trigger] t0[c] == 0,
                        forall|c: int|
                            0 <= c < m ==> cong(#[trigger] svals(w@)[c], pv * w0[c] - fv * ev[c]),
                        forall|c: int| m <= c < k ==> #[trigger] svals(w@)[c] == w0[c],
                        forall|c: int|
                            0 <= c < m ==> cong(#[trigger] svals(t@)[c], pv * t0[c] - fv * trv[c]),
                        forall|c: int| m <= c < k ==> #[trigger] svals(t@)[c] == t0[c],
                        m > rcur ==> sval(t@[rcur as int]) != 0,
                    decreases k - m,
                {
                    proof {
                        assert(self.ech()[i as int].len() == kk);
                        assert(self.tr()[i as int].len() == kk);
                        assert(self.eschelon@[i as int]@.len() == kk);
                        assert(self.transform@[i as int]@.len() == kk);
                    }
                    let mw1 = scalar_mul(&p, &w[m]);
                    let mw2 = scalar_mul(&f, &self.eschelon[i][m]);
                    let wm = scalar_sub(&mw1, &mw2);
                    let mt1 = scalar_mul(&p, &t[m]);
                    let mt2 = scalar_mul(&f, &self.transform[i][m]);
                    let tm = scalar_sub(&mt1, &mt2);
                    let ghost wpre = svals(w@);
                    let ghost tpre = svals(t@);
                    w[m] = wm;
                    t[m] = tm;
                    proof {
                        let mi = m as int;
                        assert(svals(w@) =~= wpre.update(mi, sval(wm)));
                        assert(svals(t@) =~= tpre.update(mi, sval(tm)));
                        assert(sval(w@[mi]) == sval(wm));
                        assert(wpre[mi] == w0[mi]);
                        assert(cong(sval(mw1), pv * w0[mi]));
                        assert(cong(sval(mw2), fv * ev[mi])) by {
                            assert(sval(self.eschelon@[i as int]@[mi]) == ev[mi]);
                        }
                        lemma_cong_sub(sval(mw1), sval(mw2), pv * w0[mi], fv * ev[mi]);
                        lemma_cong_trans(sval(wm), sval(mw1) - sval(mw2), pv * w0[mi] - fv * ev[mi]);
                        assert(cong(sval(tm), pv * t0[mi] - fv * trv[mi])) by {
                            assert(tpre[mi] == t0[mi]);
                            assert(sval(self.transform@[i as int]@[mi]) == trv[mi]);
                            lemma_cong_sub(sval(mt1), sval(mt2), pv * t0[mi], fv * trv[mi]);
                            lemma_cong_trans(
                                sval(tm),
                                sval(mt1) - sval(mt2),
                                pv * t0[mi] - fv * trv[mi],
                            );
                        }
                        if m == rcur {
                            assert(tpre[mi] == t0[mi]);
                            assert(t0[mi] != 0);
                            assert(sval(p) != 0);
                            assert(trv[mi] == 0);
                            assert(cong(sval(mt2), fv * 0));
                            lemma_sval_in_field(mt2);
                            lemma_cong_in_field(sval(mt2), 0);
                            assert(sval(mt1) != 0);
                            assert(cong(sval(tm), sval(mt1) - 0));
                            lemma_sval_in_field(tm);
                            lemma_sval_in_field(mt1);
                            lemma_cong_in_field(sval(tm), sval(mt1));
                        }
                    }
                    m += 1;
                }
                proof {
                    // the new working row and transform row satisfy the witness
                    assert forall|j: int| 0 <= j < kk implies cong(
                        #[trigger] dot(svals(t@), col(cw, j)),
                        svals(w@)[j],
                    ) by {
                        let cj = col(cw, j);
                        assert(cj.len() == kk);
                        let comb = vcomb(pv, fv, t0, trv);
                        assert forall|c: int| 0 <= c < kk implies cong(
                            #[trigger] svals(t@)[c],
                            comb[c],
                        ) by {
                            assert(comb[c] == pv * t0[c] - fv * trv[c]);
                        }
                        lemma_dot_cong_left(svals(t@), comb, cj);
                        lemma_dot_comb_left(pv, fv, t0, trv, cj);
                        // dot(trv, cw col) equals dot(trv, padded col): they
                        // differ only in the candidate row, where trv is zero
                        let pj = col(padded(self.coeffs(), kk), j);
                        assert(pj.len() == kk);
                        assert forall|mm: int| 0 <= mm < kk implies #[trigger] pj[mm] == cj[mm]
                            || trv[mm] == 0 by {
                            if mm < rcur {
                                assert(pj[mm] == padded(self.coeffs(), kk)[mm][j]);
                                assert(cj[mm] == cw[mm][j]);
                                assert(padded(self.coeffs(), kk)[mm] == self.coeffs()[mm]);
                                assert(cw[mm] == self.coeffs().push(rowv)[mm]);
                            } else if mm == rcur {
                                assert(trv[mm] == 0);
                            } else {
                                assert(padded(self.coeffs(), kk)[mm] == unit(
                                    kk,
                                    rcur + (mm - rcur),
                                ));
                                assert(cw[mm] == unit(kk, rcur + 1 + (mm - (rcur + 1))));
                            }
                        }
                        lemma_dot_skip(trv, pj, cj);
                        assert(cong(dot(trv, pj), ev[j]));
                        assert(cong(dot(t0, cj), w0[j]));
                        lemma_cong_refl(pv);
                        lemma_cong_refl(fv);
                        lemma_cong_mul(pv, dot(t0, cj), pv, w0[j]);
                        lemma_cong_mul(fv, dot(trv, cj), fv, ev[j]);
                        lemma_cong_sub(pv * dot(t0, cj), fv * dot(trv, cj), pv * w0[j], fv * ev[j]);
                        lemma_cong_trans(
                            dot(svals(t@), cj),
                            dot(comb, cj),
                            pv * w0[j] - fv * ev[j],
                        );
                        lemma_cong_sym(svals(w@)[j], pv * w0[j] - fv * ev[j]);
                        lemma_cong_trans(dot(svals(t@), cj), pv * w0[j] - fv * ev[j], svals(w@)[j]);
                    }
                    // zeros of the transform row beyond the filled prefix
                    assert forall|c: int| rcur < c < k implies #[trigger] svals(t@)[c] == 0 by {
                        assert(cong(svals(t@)[c], pv * t0[c] - fv * trv[c]));
                        assert(t0[c] == 0);
                        assert(trv[c] == 0) by {
                            assert(rcur <= c < k);
                        }
                        assert(pv * 0 - fv * 0 == 0) by (nonlinear_arith);
                        lemma_sval_in_field(t@[c]);
                        lemma_cong_in_field(svals(t@)[c], 0);
                    }
                    // the new working row's pivot moved strictly past e_piv
                    assert forall|c: int| 0 <= c <= e_piv implies #[trigger] svals(w@)[c] == 0 by {
                        assert(cong(svals(w@)[c], pv * w0[c] - fv * ev[c]));
                        if c < e_piv {
                            assert(w0[c] == 0);
                            assert(ev[c] == 0);
                            assert(pv * 0 - fv * 0 == 0) by (nonlinear_arith);
                        } else {
                            assert(w0[c] == fv);
                            assert(ev[c] == pv);
                            assert(pv * fv - fv * pv == 0) by (nonlinear_arith);
                        }
                        lemma_sval_in_field(w@[c]);
                        lemma_cong_in_field(svals(w@)[c], 0);
                    }
                    lemma_pivot_beyond(svals(w@), e_piv as int);
                    assert forall|mm: int| 0 <= mm < i + 1 implies #[trigger] pivot(self.ech()[mm])
                        < pivot(svals(w@)) by {
                        if mm < i {
                            assert(pivot(self.ech()[mm]) < pivot(w0));
                        }
                        assert(pivot(self.ech()[i as int]) == e_piv as int);
                        assert(pivot(w0) == e_piv as int);
                    }
                    // the working row stays a combination of the
                    // candidate and the reduced rows
                    let nu0 = nu;
                    nu = vcomb(pv, fv, nu0, unit(rcur as nat, i as int));
                    let al0 = t0[rcur as int];
                    let al = sval(t@[rcur as int]);
                    assert(cong(al, pv * al0)) by {
                        assert(cong(svals(t@)[rcur as int], pv * t0[rcur as int] - fv
                            * trv[rcur as int]));
                        assert(trv[rcur as int] == 0);
                        assert(pv * t0[rcur as int] - fv * 0 == pv * t0[rcur as int])
                            by (nonlinear_arith);
                    }
                    assert forall|j: int| 0 <= j < kk implies cong(
                        #[trigger] svals(w@)[j],
                        sval(t@[rcur as int]) * rowv[j] + dot(nu, col(old(self).ech(), j)),
                    ) by {
                        let cj = col(old(self).ech(), j);
                        assert(cj.len() == rcur);
                        let d0 = dot(nu0, cj);
                        lemma_dot_comb_left(pv, fv, nu0, unit(rcur as nat, i as int), cj);
                        lemma_dot_unit(rcur as nat, i as int, cj);
                        assert(cj[i as int] == old(self).ech()[i as int][j]);
                        assert(cj[i as int] == ev[j]);
                        assert(dot(nu, cj) == pv * d0 - fv * ev[j]);
                        // the new working entry against the new decomposition
                        assert(cong(svals(w@)[j], pv * w0[j] - fv * ev[j]));
                        assert(cong(w0[j], al0 * rowv[j] + d0));
                        lemma_cong_refl(pv);
                        lemma_cong_refl(fv * ev[j]);
                        lemma_cong_mul(pv, w0[j], pv, al0 * rowv[j] + d0);
                        lemma_cong_sub(pv * w0[j], fv * ev[j], pv * (al0 * rowv[j] + d0), fv
                            * ev[j]);
                        lemma_cong_trans(
                            svals(w@)[j],
                            pv * w0[j] - fv * ev[j],
                            pv * (al0 * rowv[j] + d0) - fv * ev[j],
                        );
                        assert(pv * (al0 * rowv[j] + d0) - fv * ev[j] == (pv * al0) * rowv[j] + (pv
                            * d0 - fv * ev[j])) by (nonlinear_arith);
                        lemma_cong_refl(rowv[j]);
                        lemma_cong_sym(al, pv * al0);
                        lemma_cong_mul(pv * al0, rowv[j], al, rowv[j]);
                        lemma_cong_refl(dot(nu, cj));
                        lemma_cong_add((pv * al0) * rowv[j], dot(nu, cj), al * rowv[j], dot(
                            nu,
                            cj,
                        ));
                        lemma_cong_trans(
                            svals(w@)[j],
                            (pv * al0) * rowv[j] + (pv * d0 - fv * ev[j]),
                            al * rowv[j] + dot(nu, cj),
                        );
                    }
                }
                i += 1;
            }
        }
        let w_piv: usize = match first_entry(&w) {
            Some(p) => p,
            None => {
                proof {
                    lemma_pivot_props(svals(w@));
                    lemma_sval_in_field(t@[rcur as int]);
                    lemma_reduced_to_zero(svals(t@), svals(w@), rowv, self.coeffs(), kk);
                }
                return false;
            },
        };
        let ghost wv = svals(w@);
        let ghost tv = svals(t@);
        let ghost pos = i as int;
        let ghost old_ech = self.ech();
        let ghost old_tr = self.tr();
        let ghost old_coeffs = self.coeffs();
        proof {
            // the working row's pivot differs from every reduced row's
            assert forall|mm: int| 0 <= mm < rcur implies #[trigger] pivot(self.ech()[mm])
                != w_piv as int by {
                if mm < pos {
                    assert(pivot(self.ech()[mm]) < pivot(wv));
                } else {
                    assert(pos < rcur);
                    assert(pivot(wv) < pivot(self.ech()[pos]));
                    let em2 = Seq::new(rcur as nat, |x: int| svals(self.eschelon@[x]@));
                    assert forall|x: int| 0 <= x < em2.len() - 1 implies #[trigger] pivot(em2[x])
                        < pivot(em2[x + 1]) by {
                        assert(em2[x] == self.ech()[x]);
                        assert(em2[x + 1] == self.ech()[x + 1]);
                    }
                    lemma_pivot_span(em2, pos, mm);
                    assert(em2[pos] == self.ech()[pos]);
                    assert(em2[mm] == self.ech()[mm]);
                }
            }
            assert forall|mm: int| 0 <= mm < rcur implies (#[trigger] self.eschelon@[mm])@.len()
                == k by {
                assert(self.ech()[mm] == svals(self.eschelon@[mm]@));
            }
            assert forall|mm: int| 0 <= mm < rcur implies #[trigger] pivot(
                svals(self.eschelon@[mm]@),
            ) < k && pivot(svals(self.eschelon@[mm]@)) != w_piv as int by {
                assert(svals(self.eschelon@[mm]@) == self.ech()[mm]);
            }
            assert forall|mm: int| 0 <= mm < rcur - 1 implies #[trigger] pivot(
                svals(self.eschelon@[mm]@),
            ) < pivot(svals(self.eschelon@[mm + 1]@)) by {
                assert(svals(self.eschelon@[mm]@) == self.ech()[mm]);
                assert(svals(self.eschelon@[mm + 1]@) == self.ech()[mm + 1]);
            }
        }
        let cert = separating_certificate(&self.eschelon, &w, w_piv, k);
        proof {
            // an accepted row lies in no combination of the reduced rows
            let uv = svals(cert.0@);
            let certv = sval(cert.1);
            let oe = old(self).ech();
            assert forall|mm: int| 0 <= mm < rcur implies cong(#[trigger] dot(oe[mm], uv), 0) by {
                assert(oe[mm] == svals(self.eschelon@[mm]@));
            }
            assert forall|mm: int| 0 <= mm < rcur implies (#[trigger] oe[mm]).len() == kk by {
                assert(oe[mm] == svals(self.eschelon@[mm]@));
            }
            lemma_sval_in_field(cert.1);
            lemma_certificate_excludes_span(rowv, wv, nu, sval(t@[rcur as int]), oe, uv, certv,
                kk);
        }
        self.eschelon.insert(i, w);
        self.coefficients.push(row);
        self.transform.remove(rcur);
        self.transform.insert(i, t);
        proof {
            let s = *self;
            assert(s.coeffs() =~= old_coeffs.push(rowv));
            assert(s.ech() =~= old_ech.insert(pos, wv)) by {
                old(self).eschelon@.insert_ensures(pos, w);
                old_ech.insert_ensures(pos, wv);
            }
            assert(s.tr() =~= old_tr.remove(rcur as int).insert(pos, tv)) by {
                let mid = old(self).transform@.remove(rcur as int);
                assert(s.transform@ == mid.insert(pos, t));
                old(self).transform@.remove_ensures(rcur as int);
                old_tr.remove_ensures(rcur as int);
                mid.insert_ensures(pos, t);
                old_tr.remove(rcur as int).insert_ensures(pos, tv);
                assert forall|x: int| 0 <= x < kk implies #[trigger] svals(s.transform@[x]@)
                    == old_tr.remove(rcur as int).insert(pos, tv)[x] by {
                    if x < pos {
                        assert(s.transform@[x] == old(self).transform@[x]);
                    } else if x == pos {
                        assert(s.transform@[x] == t);
                    } else if x <= rcur as int {
                        assert(mid.insert(pos, t)[x] == mid[x - 1]);
                        assert(mid[x - 1] == old(self).transform@[x - 1]);
                        assert(old_tr.remove(rcur as int).insert(pos, tv)[x] == old_tr.remove(
                            rcur as int,
                        )[x - 1]);
                        assert(old_tr.remove(rcur as int)[x - 1] == old_tr[x - 1]);
                    } else {
                        assert(mid.insert(pos, t)[x] == mid[x - 1]);
                        assert(mid[x - 1] == old(self).transform@[x]);
                        assert(old_tr.remove(rcur as int).insert(pos, tv)[x] == old_tr.remove(
                            rcur as int,
                        )[x - 1]);
                        assert(old_tr.remove(rcur as int)[x - 1] == old_tr[x]);
                    }
                }
            }
            lemma_add_row_insert(s, *old(self), tv, wv, rowv, pos);
        }
        true
    }
}

/// A functional orthogonal to every row of `oe` but pairing with the
/// working row to a nonzero residue certifies that the candidate row,
/// of which the working row is a nonzero multiple plus a combination of
/// the rows of `oe`, lies in no combination of those rows.
proof fn lemma_certificate_excludes_span(
    rowv: Seq<int>,
    wv: Seq<int>,
    nuv: Seq<int>,
    al: int,
    oe: Seq<Seq<int>>,
    uv: Seq<int>,
    certv: int,
    kk: nat,
)
    requires
        rowv.len() == kk,
        wv.len() == kk,
        uv.len() == kk,
        nuv.len() == oe.len(),
        forall|m: int| 0 <= m < oe.len() ==> (#[trigger] oe[m]).len() == kk,
        forall|m: int| 0 <= m < oe.len() ==> cong(#[trigger] dot(oe[m], uv), 0),
        forall|j: int|
            0 <= j < kk ==> cong(#[trigger] wv[j], al * rowv[j] + dot(nuv, col(oe, j))),
        cong(dot(wv, uv), certv),
        in_field(certv),
        certv != 0,
    ensures
        !in_span(rowv, oe),
{
    let zm = Seq::new(oe.len(), |x: int| Seq::new(kk, |y: int| 0int));
    assert forall|mm: int| 0 <= mm < oe.len() implies cong(
        #[trigger] dot(oe[mm], uv),
        dot(zm[mm], uv),
    ) by {
        assert forall|y: int| 0 <= y < zm[mm].len() implies #[trigger] zm[mm][y] == 0 by {}
        lemma_dot_zero_left(zm[mm], uv);
        lemma_cong_refl(0);
    }
    if in_span(rowv, oe) {
        let lam = choose|lam: Seq<int>| plain_combo(lam, rowv, oe);
        // the candidate is then orthogonal to the functional
        assert forall|j: int| 0 <= j < rowv.len() implies cong(
            #[trigger] rowv[j],
            row_times(lam, oe, kk)[j],
        ) by {
            assert(row_times(lam, oe, kk)[j] == dot(lam, col(oe, j)));
        }
        lemma_dot_cong_left(rowv, row_times(lam, oe, kk), uv);
        lemma_row_times_dot(lam, oe, uv, kk);
        lemma_wsum_cong(lam, oe, uv, zm, uv);
        lemma_wsum_zero(lam, zm, uv);
        lemma_cong_trans(dot(rowv, uv), dot(row_times(lam, oe, kk), uv), wsum(lam, zm, uv));
        // yet the certificate value is the scaled pairing of the
        // working row with the functional
        let xv = vadd(vscale(al, rowv), row_times(nuv, oe, kk));
        assert forall|j: int| 0 <= j < kk implies cong(#[trigger] wv[j], xv[j]) by {
            assert(xv[j] == al * rowv[j] + dot(nuv, col(oe, j)));
        }
        lemma_dot_cong_left(wv, xv, uv);
        lemma_dot_add_left(vscale(al, rowv), row_times(nuv, oe, kk), uv);
        lemma_dot_scale_left(al, rowv, uv);
        lemma_row_times_dot(nuv, oe, uv, kk);
        lemma_wsum_cong(nuv, oe, uv, zm, uv);
        lemma_wsum_zero(nuv, zm, uv);
        lemma_cong_refl(al);
        lemma_cong_mul(al, dot(rowv, uv), al, 0);
        assert(al * 0 == 0) by (nonlinear_arith);
        lemma_cong_add(al * dot(rowv, uv), dot(row_times(nuv, oe, kk), uv), 0, wsum(nuv, oe, uv));
        lemma_cong_refl(0);
        lemma_cong_trans(wsum(nuv, oe, uv), wsum(nuv, zm, uv), 0);
        lemma_cong_add(0, wsum(nuv, oe, uv), 0, 0);
        lemma_cong_trans(
            al * dot(rowv, uv) + dot(row_times(nuv, oe, kk), uv),
            0 + wsum(nuv, oe, uv),
            0int + 0int,
        );
        lemma_cong_trans(dot(wv, uv), dot(xv, uv), al * dot(rowv, uv) + dot(
            row_times(nuv, oe, kk),
            uv,
        ));
        lemma_cong_trans(dot(wv, uv), al * dot(rowv, uv) + dot(row_times(nuv, oe, kk), uv), 0);
        lemma_cong_sym(dot(wv, uv), certv);
        lemma_cong_sym(dot(wv, uv), 0);
        lemma_cong_trans(certv, dot(wv, uv), 0);
        lemma_in_field_not_cong_zero(certv);
        assert(false);
    }
}

/// Re-establishes the structural invariant after a working row `wv` with
/// witness row `tv` has been inserted at position `pos` of the reduced
/// form, the candidate row appended to the coefficients, and the
/// transform permuted accordingly.
proof fn lemma_add_row_insert(s: Eschelon, s0: Eschelon, tv: Seq<int>, wv: Seq<int>, rowv: Seq<int>, pos: int)
    requires
        s0.wf(),
        0 < s0.rows() < s0.size(),
        0 <= pos <= s0.rows(),
        tv.len() == s0.size(),
        wv.len() == s0.size(),
        rowv.len() == s0.size(),
        forall|j: int|
            0 <= j < s0.size() ==> cong(
                #[trigger] dot(tv, col(padded(s0.coeffs().push(rowv), s0.size()), j)),
                wv[j],
            ),
        forall|c: int| s0.rows() < c < s0.size() ==> #[trigger] tv[c] == 0,
        pivot(wv) < s0.size(),
        forall|m: int| 0 <= m < pos ==> #[trigger] pivot(s0.ech()[m]) < pivot(wv),
        pos < s0.rows() ==> pivot(wv) < pivot(s0.ech()[pos as int]),
        s.size() == s0.size(),
        s.coeffs() == s0.coeffs().push(rowv),
        s.ech() == s0.ech().insert(pos, wv),
        s.tr() == s0.tr().remove(s0.rows() as int).insert(pos, tv),
    ensures
        s.wf(),
        s.rows() == s0.rows() + 1,
{
    let kk = s0.size();
    let rcur = s0.rows() as int;
    let r2 = rcur + 1;
    let old_ech = s0.ech();
    let old_tr = s0.tr();
    let old_coeffs = s0.coeffs();
    let cw = padded(old_coeffs.push(rowv), kk);
    assert(s.rows() == s.coeffs().len());
    assert(s.ech().len() == r2) by {
        old_ech.insert_ensures(pos, wv);
    }
    // the new transform rows, by position
    assert forall|mm: int| 0 <= mm < kk implies #[trigger] s.tr()[mm] == (if mm < pos {
        old_tr[mm]
    } else if mm == pos {
        tv
    } else if mm <= rcur {
        old_tr[mm - 1]
    } else {
        old_tr[mm]
    }) by {
        old_tr.remove_ensures(rcur);
        old_tr.remove(rcur).insert_ensures(pos, tv);
        if mm > pos {
            assert(s.tr()[mm] == old_tr.remove(rcur)[mm - 1]);
        }
    }
    // the new reduced rows, by position
    assert forall|mm: int| 0 <= mm < r2 implies #[trigger] s.ech()[mm] == (if mm < pos {
        old_ech[mm]
    } else if mm == pos {
        wv
    } else {
        old_ech[mm - 1]
    }) by {
        old_ech.insert_ensures(pos, wv);
    }
    assert(padded(s.coeffs(), kk) =~= cw);
    // witness rows of the new state
    assert forall|mm: int, j: int| 0 <= mm < r2 && 0 <= j < kk implies cong(
        #[trigger] dot(s.tr()[mm], col(padded(s.coeffs(), kk), j)),
        s.ech()[mm][j],
    ) by {
        let cj = col(cw, j);
        assert(cj.len() == kk);
        if mm == pos {
            assert(s.tr()[mm] == tv);
            assert(s.ech()[mm] == wv);
            assert(cong(dot(tv, cj), wv[j]));
        } else {
            let oi = if mm < pos {
                mm
            } else {
                mm - 1
            };
            assert(0 <= oi < rcur);
            assert(s.tr()[mm] == old_tr[oi]);
            assert(s.ech()[mm] == old_ech[oi]);
            let pj = col(padded(old_coeffs, kk), j);
            assert(pj.len() == kk);
            assert(old_tr[oi].len() == kk);
            assert forall|x: int| 0 <= x < kk implies #[trigger] pj[x] == cj[x] || old_tr[oi][x]
                == 0 by {
                if x < rcur {
                    assert(pj[x] == padded(old_coeffs, kk)[x][j]);
                    assert(cj[x] == cw[x][j]);
                    assert(padded(old_coeffs, kk)[x] == old_coeffs[x]);
                    assert(cw[x] == old_coeffs.push(rowv)[x]);
                } else if x == rcur {
                    assert(old_tr[oi][x] == 0) by {
                        assert(rcur <= x < kk);
                    }
                } else {
                    assert(padded(old_coeffs, kk)[x] == unit(kk, rcur + (x - rcur)));
                    assert(cw[x] == unit(kk, rcur + 1 + (x - (rcur + 1))));
                }
            }
            lemma_dot_skip(old_tr[oi], pj, cj);
            assert(cong(dot(old_tr[oi], pj), old_ech[oi][j]));
        }
    }
    // block structure of the new transform
    assert forall|mm: int, c: int| 0 <= mm < r2 && r2 <= c < kk implies #[trigger] s.tr()[mm][c]
        == 0 by {
        if mm == pos {
            assert(tv[c] == 0);
        } else {
            let oi = if mm < pos {
                mm
            } else {
                mm - 1
            };
            assert(0 <= oi < rcur);
            assert(s.tr()[mm] == old_tr[oi]);
            assert(old_tr[oi][c] == 0) by {
                assert(rcur <= c < kk);
            }
        }
    }
    // unit rows below the filled prefix
    assert forall|mm: int| r2 <= mm < kk implies #[trigger] s.tr()[mm] == unit(kk, mm) by {
        assert(s.tr()[mm] == old_tr[mm]);
    }
    // pivots: still strictly increasing, no zero rows
    assert forall|mm: int| 0 <= mm < r2 implies #[trigger] pivot(s.ech()[mm]) < kk by {
        if mm == pos {
            assert(s.ech()[mm] == wv);
        } else if mm < pos {
            assert(s.ech()[mm] == old_ech[mm]);
        } else {
            assert(s.ech()[mm] == old_ech[mm - 1]);
        }
    }
    assert forall|mm: int| 0 <= mm < r2 - 1 implies #[trigger] pivot(s.ech()[mm]) < pivot(
        s.ech()[mm + 1],
    ) by {
        if mm + 1 < pos {
            assert(s.ech()[mm] == old_ech[mm]);
            assert(s.ech()[mm + 1] == old_ech[mm + 1]);
        } else if mm + 1 == pos {
            assert(s.ech()[mm] == old_ech[mm]);
            assert(s.ech()[mm + 1] == wv);
            assert(pivot(old_ech[mm]) < pivot(wv));
        } else if mm == pos {
            assert(s.ech()[mm] == wv);
            assert(s.ech()[mm + 1] == old_ech[mm]);
            assert(pivot(wv) < pivot(old_ech[pos]));
        } else {
            assert(s.ech()[mm] == old_ech[mm - 1]);
            assert(s.ech()[mm + 1] == old_ech[mm]);
        }
    }
    // shapes
    assert forall|mm: int| 0 <= mm < r2 implies (#[trigger] s.coeffs()[mm]).len() == kk by {
        if mm < rcur {
            assert(s.coeffs()[mm] == old_coeffs[mm]);
        }
    }
    assert forall|mm: int| 0 <= mm < r2 implies (#[trigger] s.ech()[mm]).len() == kk by {
        if mm != pos {
            let oi = if mm < pos {
                mm
            } else {
                mm - 1
            };
            assert(s.ech()[mm] == old_ech[oi]);
        }
    }
    assert forall|mm: int| 0 <= mm < kk implies (#[trigger] s.tr()[mm]).len() == kk by {
        if mm != pos {
            let oi = if mm < pos || mm > rcur {
                mm
            } else {
                mm - 1
            };
            assert(s.tr()[mm] == old_tr[oi]);
        }
    }
}

impl Eschelon {
    /// Inverts the coefficient matrix by back-substitution on the reduced
    /// form, starting from the transform: the result times the accepted
    /// coefficient rows is the identity, entry by entry over the field.
    /// Fails exactly when fewer than `size` rows have been accepted.
    #[verifier::rlimit(80)]
    pub fn inverse(&self) -> (r: Result<Vec<Vec<Scalar>>, CodingError>)
        requires
            self.wf(),
        ensures
            match r {
                Ok(m) => {
                    &&& self.rows() == self.size()
                    &&& smat(m@).len() == self.size()
                    &&& forall|i: int|
                        0 <= i < self.size() ==> (#[trigger] smat(m@)[i]).len() == self.size()
                    &&& mat_cong(
                        mat_mul(smat(m@), self.coeffs(), self.size()),
                        identity(self.size()),
                    )
                },
                Err(e) => e == CodingError::Underdetermined && self.rows() < self.size(),
            },
    {
        let k = self.transform.len();
        if self.coefficients.len() != k {
            return Err(CodingError::Underdetermined);
        }
        let ghost kk = k as nat;
        let ghost cm = self.coeffs();
        proof {
            if k > 0 {
                lemma_full_pivots(self.ech(), kk);
            }
            assert(padded(cm, kk) =~= cm);
        }
        let mut inv: Vec<Vec<Scalar>> = Vec::new();
        let mut x: usize = 0;
        while x < k
            invariant
                self.wf(),
                k == self.size(),
                x <= k,
                inv@.len() == x,
                forall|y: int| 0 <= y < x ==> #[trigger] smat(inv@)[y] == self.tr()[y],
            decreases k - x,
        {
            let ghost inv0 = inv@;
            inv.push(copy_row(&self.transform[x]));
            proof {
                assert forall|y: int| 0 <= y < x + 1 implies #[trigger] smat(inv@)[y]
                    == self.tr()[y] by {
                    if y < x {
                        assert(inv@[y] == inv0[y]);
                        assert(smat(inv0)[y] == self.tr()[y]);
                    } else {
                        assert(inv@[y]@ == self.transform@[x as int]@);
                    }
                }
            }
            x += 1;
        }
        let mut i: usize = k;
        while i > 0
            invariant
                self.wf(),
                self.rows() == self.size(),
                k == self.size(),
                kk == k as nat,
                cm == self.coeffs(),
                i <= k,
                inv@.len() == k,
                forall|y: int| 0 <= y < k ==> (#[trigger] smat(inv@)[y]).len() == kk,
                forall|y: int| 0 <= y < i ==> #[trigger] smat(inv@)[y] == self.tr()[y],
                forall|y: int, c: int|
                    i <= y < k && 0 <= c < k ==> cong(
                        #[trigger] dot(smat(inv@)[y], col(cm, c)),
                        unit(kk, y)[c],
                    ),
                forall|y: int| 0 <= y < k ==> #[trigger] pivot(self.ech()[y]) == y,
                padded(cm, kk) == cm,
            decreases i,
        {
            i -= 1;
            let ghost ii = i as int;
            let ghost ev = self.ech()[ii];
            proof {
                assert(self.ech()[ii] == svals(self.eschelon@[ii]@));
                assert(ev.len() == kk);
                lemma_pivot_props(ev);
                assert(ev[ii] != 0);
            }
            let piv = self.eschelon[i][i];
            proof {
                assert(sval(piv) == ev[ii]);
            }
            let pinv = scalar_invert(&piv);
            let ghost pvinv = sval(pinv);
            let ghost told = smat(inv@)[ii];
            let mut nr: Vec<Scalar> = Vec::new();
            let mut c: usize = 0;
            while c < k
                invariant
                    self.wf(),
                    k == self.size(),
                    kk == k as nat,
                    0 <= ii < k,
                    ii == i as int,
                    c <= k,
                    inv@.len() == k,
                    told == smat(inv@)[ii],
                    told.len() == kk,
                    inv@[ii]@.len() == kk,
                    pvinv == sval(pinv),
                    nr@.len() == c,
                    forall|y: int| 0 <= y < c ==> cong(#[trigger] svals(nr@)[y], pvinv * told[y]),
                decreases k - c,
            {
                proof {
                    assert(smat(inv@)[ii] == svals(inv@[ii]@));
                }
                let ghost nr0 = nr@;
                nr.push(scalar_mul(&pinv, &inv[i][c]));
                proof {
                    assert forall|y: int| 0 <= y < c + 1 implies cong(
                        #[trigger] svals(nr@)[y],
                        pvinv * told[y],
                    ) by {
                        if y < c {
                            assert(nr@[y] == nr0[y]);
                            assert(svals(nr0)[y] == sval(nr0[y]));
                        }
                    }
                }
                c += 1;
            }
            let ghost pre1 = inv@;
            inv[i] = nr;
            proof {
                assert forall|y: int| 0 <= y < k && y != ii implies #[trigger] smat(inv@)[y]
                    == smat(pre1)[y] by {
                    assert(inv@[y] == pre1[y]);
                }
                // after scaling, row i meets the stage target at `i + 1`
                assert(smat(inv@)[ii] == svals(inv@[ii]@));
                let cur = smat(inv@)[ii];
                assert(cur.len() == kk);
                assert forall|cc: int| 0 <= cc < k implies cong(
                    #[trigger] dot(cur, col(cm, cc)),
                    elim_target(ev, pvinv, ii, ii + 1, cc),
                ) by {
                    let cj = col(cm, cc);
                    assert(cj.len() == kk);
                    let comb = vscale(pvinv, told);
                    assert forall|y: int| 0 <= y < kk implies cong(
                        #[trigger] cur[y],
                        comb[y],
                    ) by {
                        assert(comb[y] == pvinv * told[y]);
                    }
                    lemma_dot_cong_left(cur, comb, cj);
                    lemma_dot_scale_left(pvinv, told, cj);
                    assert(told == self.tr()[ii]);
                    assert(cong(dot(self.tr()[ii], col(padded(self.coeffs(), kk), cc)),
                        self.ech()[ii][cc]));
                    assert(cong(dot(told, cj), ev[cc]));
                    lemma_cong_refl(pvinv);
                    lemma_cong_mul(pvinv, dot(told, cj), pvinv, ev[cc]);
                    lemma_cong_trans(dot(cur, cj), pvinv * dot(told, cj), pvinv * ev[cc]);
                    if cc == ii {
                        // the diagonal becomes one
                        assert(cong(pvinv * ev[ii], 1));
                        lemma_cong_trans(dot(cur, cj), pvinv * ev[ii], 1);
                    }
                }
            }
            let mut j: usize = i + 1;
            while j < k
                invariant
                    self.wf(),
                    self.rows() == self.size(),
                    k == self.size(),
                    kk == k as nat,
                    cm == self.coeffs(),
                    0 <= ii < k,
                    ii == i as int,
                    i + 1 <= j <= k,
                    ev == self.ech()[ii],
                    ev.len() == kk,
                    pvinv == sval(pinv),
                    inv@.len() == k,
                    forall|y: int| 0 <= y < k ==> (#[trigger] smat(inv@)[y]).len() == kk,
                    forall|y: int| 0 <= y < i ==> #[trigger] smat(inv@)[y] == self.tr()[y],
                    forall|y: int, c: int|
                        i < y < k && 0 <= c < k ==> cong(
                            #[trigger] dot(smat(inv@)[y], col(cm, c)),
                            unit(kk, y)[c],
                        ),
                    forall|c: int|
                        0 <= c < k ==> cong(
                            #[trigger] dot(smat(inv@)[ii], col(cm, c)),
                            elim_target(ev, pvinv, ii, j as int, c),
                        ),
                    forall|y: int| 0 <= y < k ==> #[trigger] pivot(self.ech()[y]) == y,
                    padded(cm, kk) == cm,
                decreases k - j,
            {
                let ghost jj = j as int;
                let ghost cur = smat(inv@)[ii];
                let ghost rowj = smat(inv@)[jj];
                let ghost evj = sval(self.eschelon@[ii]@[jj]);
                let diff = scalar_mul(&self.eschelon[i][j], &pinv);
                let ghost dv = sval(diff);
                proof {
                    assert(self.ech()[ii] == svals(self.eschelon@[ii]@));
                    assert(evj == ev[jj]);
                    assert(cong(dv, ev[jj] * pvinv));
                }
                let mut nr2: Vec<Scalar> = Vec::new();
                let mut c: usize = 0;
                while c < k
                    invariant
                        self.wf(),
                        k == self.size(),
                        kk == k as nat,
                        0 <= ii < k,
                        0 <= jj < k,
                        ii < jj,
                        ii == i as int,
                        jj == j as int,
                        c <= k,
                        inv@.len() == k,
                        cur == smat(inv@)[ii],
                        rowj == smat(inv@)[jj],
                        cur.len() == kk,
                        rowj.len() == kk,
                        inv@[ii]@.len() == kk,
                        inv@[jj]@.len() == kk,
                        dv == sval(diff),
                        nr2@.len() == c,
                        forall|y: int|
                            0 <= y < c ==> cong(#[trigger] svals(nr2@)[y], cur[y] - dv * rowj[y]),
                    decreases k - c,
                {
                    proof {
                        assert(smat(inv@)[ii] == svals(inv@[ii]@));
                        assert(smat(inv@)[jj] == svals(inv@[jj]@));
                    }
                    let ghost nr0 = nr2@;
                    let m2 = scalar_mul(&diff, &inv[j][c]);
                    let sub = scalar_sub(&inv[i][c], &m2);
                    nr2.push(sub);
                    proof {
                        assert forall|y: int| 0 <= y < c + 1 implies cong(
                            #[trigger] svals(nr2@)[y],
                            cur[y] - dv * rowj[y],
                        ) by {
                            if y < c {
                                assert(nr2@[y] == nr0[y]);
                                assert(svals(nr0)[y] == sval(nr0[y]));
                            } else {
                                lemma_cong_refl(cur[y]);
                                lemma_cong_sub(sval(inv@[ii]@[y]), sval(m2), cur[y], dv * rowj[y]);
                                lemma_cong_trans(
                                    sval(sub),
                                    sval(inv@[ii]@[y]) - sval(m2),
                                    cur[y] - dv * rowj[y],
                                );
                            }
                        }
                    }
                    c += 1;
                }
                let ghost pre2 = inv@;
                inv[i] = nr2;
                proof {
                    assert forall|y: int| 0 <= y < k && y != ii implies #[trigger] smat(inv@)[y]
                        == smat(pre2)[y] by {
                        assert(inv@[y] == pre2[y]);
                    }
                    assert(smat(inv@)[ii] == svals(inv@[ii]@));
                    let new_i = smat(inv@)[ii];
                    assert(new_i.len() == kk);
                    // the eliminated column becomes zero; the others keep
                    // their stage target
                    assert forall|cc: int| 0 <= cc < k implies cong(
                        #[trigger] dot(new_i, col(cm, cc)),
                        elim_target(ev, pvinv, ii, jj + 1, cc),
                    ) by {
                        let cj = col(cm, cc);
                        assert(cj.len() == kk);
                        let comb = vcomb(1, dv, cur, rowj);
                        assert forall|y: int| 0 <= y < kk implies cong(
                            #[trigger] new_i[y],
                            comb[y],
                        ) by {
                            assert(comb[y] == 1 * cur[y] - dv * rowj[y]);
                            assert(1 * cur[y] == cur[y]);
                        }
                        lemma_dot_cong_left(new_i, comb, cj);
                        lemma_dot_comb_left(1, dv, cur, rowj, cj);
                        assert(dot(comb, cj) == 1 * dot(cur, cj) - dv * dot(rowj, cj));
                        assert(1 * dot(cur, cj) == dot(cur, cj));
                        assert(cong(dot(cur, cj), elim_target(ev, pvinv, ii, jj, cc)));
                        assert(cong(dot(rowj, cj), unit(kk, jj)[cc]));
                        lemma_cong_refl(dv);
                        lemma_cong_mul(dv, dot(rowj, cj), dv, unit(kk, jj)[cc]);
                        lemma_cong_sub(
                            dot(cur, cj),
                            dv * dot(rowj, cj),
                            elim_target(ev, pvinv, ii, jj, cc),
                            dv * unit(kk, jj)[cc],
                        );
                        lemma_cong_trans(
                            dot(new_i, cj),
                            dot(cur, cj) - dv * dot(rowj, cj),
                            elim_target(ev, pvinv, ii, jj, cc) - dv * unit(kk, jj)[cc],
                        );
                        if cc == jj {
                            // target pvinv*ev[j] minus dv*1, and dv is
                            // congruent to ev[j]*pvinv, so the column
                            // cancels
                            assert(unit(kk, jj)[cc] == 1);
                            assert(dv * 1 == dv);
                            lemma_cong_refl(pvinv * ev[jj]);
                            lemma_cong_sub(pvinv * ev[jj], dv, pvinv * ev[jj], ev[jj] * pvinv);
                            assert(pvinv * ev[jj] - ev[jj] * pvinv == 0) by (nonlinear_arith);
                            lemma_cong_trans(dot(new_i, cj), pvinv * ev[jj] - dv, 0);
                            assert(elim_target(ev, pvinv, ii, jj + 1, cc) == 0);
                        } else {
                            assert(unit(kk, jj)[cc] == 0);
                            assert(dv * 0 == 0);
                            assert(elim_target(ev, pvinv, ii, jj, cc) - 0 == elim_target(
                                ev,
                                pvinv,
                                ii,
                                jj + 1,
                                cc,
                            ));
                        }
                    }
                }
                j += 1;
            }
            proof {
                // row i now multiplies the coefficients to the unit row
                let fin = smat(inv@)[ii];
                assert forall|cc: int| 0 <= cc < k implies cong(
                    #[trigger] dot(fin, col(cm, cc)),
                    unit(kk, ii)[cc],
                ) by {
                    assert(cong(dot(fin, col(cm, cc)), elim_target(ev, pvinv, ii, k as int, cc)));
                    if cc == ii {
                        assert(unit(kk, ii)[cc] == 1);
                    } else if cc > ii {
                        assert(unit(kk, ii)[cc] == 0);
                    } else {
                        assert(ev[cc] == 0);
                        assert(pvinv * 0 == 0) by (nonlinear_arith);
                        assert(unit(kk, ii)[cc] == 0);
                    }
                }
            }
        }
        proof {
            assert forall|y: int, c: int| 0 <= y < k && 0 <= c < k implies cong(
                #[trigger] mat_mul(smat(inv@), cm, kk)[y][c],
                identity(kk)[y][c],
            ) by {
                assert(mat_mul(smat(inv@), cm, kk)[y] == row_times(smat(inv@)[y], cm, kk));
                assert(row_times(smat(inv@)[y], cm, kk)[c] == dot(smat(inv@)[y], col(cm, c)));
                assert(cong(dot(smat(inv@)[y], col(cm, c)), unit(kk, y)[c]));
                assert(identity(kk)[y] == unit(kk, y));
            }
            assert(mat_cong(mat_mul(smat(inv@), cm, kk), identity(kk)));
        }
        Ok(inv)
    }
}

impl Eschelon {
    /// The echelon witness: at every state, the transform matrix times
    /// the padded coefficient rows is the padded reduced form, entry by
    /// entry over the scalar field.
    pub proof fn lemma_transform_witness(self)
        requires
            self.wf(),
        ensures
            mat_cong(
                mat_mul(self.tr(), padded(self.coeffs(), self.size()), self.size()),
                padded(self.ech(), self.size()),
            ),
    {
        let k = self.size();
        let r = self.rows() as int;
        let pc = padded(self.coeffs(), k);
        let pe = padded(self.ech(), k);
        let prod = mat_mul(self.tr(), pc, k);
        assert(prod.len() == k);
        assert(pe.len() == k);
        assert forall|i: int| 0 <= i < k implies (#[trigger] prod[i]).len() == pe[i].len() by {
            assert(prod[i] == row_times(self.tr()[i], pc, k));
            if i >= r {
                assert(pe[i] == unit(k, r + (i - r)));
            }
        }
        assert forall|i: int, j: int| 0 <= i < k && 0 <= j < prod[i].len() implies cong(
            #[trigger] prod[i][j],
            pe[i][j],
        ) by {
            assert(prod[i] == row_times(self.tr()[i], pc, k));
            assert(prod[i][j] == dot(self.tr()[i], col(pc, j)));
            if i < r {
                assert(cong(dot(self.tr()[i], col(pc, j)), self.ech()[i][j]));
                assert(pe[i] == self.ech()[i]);
            } else {
                assert(self.tr()[i] == unit(k, i));
                assert(col(pc, j).len() == k);
                lemma_dot_unit(k, i, col(pc, j));
                assert(col(pc, j)[i] == pc[i][j]);
                assert(pc[i] == unit(k, r + (i - r)));
                assert(pe[i] == unit(k, r + (i - r)));
                lemma_cong_refl(pc[i][j]);
            }
        }
    }
}

/// Copies a matrix of scalars row by row.
fn copy_matrix(m: &Vec<Vec<Scalar>>) -> (r: Vec<Vec<Scalar>>)
    ensures
        smat(r@) == smat(m@),
{
    let mut r: Vec<Vec<Scalar>> = Vec::new();
    let mut i: usize = 0;
    while i < m.len()
        invariant
            i <= m@.len(),
            r@.len() == i,
            forall|a: int| 0 <= a < i ==> #[trigger] smat(r@)[a] == smat(m@)[a],
        decreases m@.len() - i,
    {
        let ghost r0 = r@;
        r.push(copy_row(&m[i]));
        proof {
            assert forall|a: int| 0 <= a < i + 1 implies #[trigger] smat(r@)[a] == smat(m@)[a] by {
                if a < i {
                    assert(r@[a] == r0[a]);
                    assert(smat(r0)[a] == smat(m@)[a]);
                } else {
                    assert(r@[a]@ == m@[a]@);
                }
            }
        }
        i += 1;
    }
    proof {
        assert(smat(r@) =~= smat(m@));
    }
    r
}

impl Eschelon {
    /// A copy of the accepted coefficient rows.
    pub fn coefficient_rows(&self) -> (r: Vec<Vec<Scalar>>)
        ensures
            smat(r@) == self.coeffs(),
    {
        copy_matrix(&self.coefficients)
    }

    /// A copy of the row-reduced form.
    pub fn reduced_rows(&self) -> (r: Vec<Vec<Scalar>>)
        ensures
            smat(r@) == self.ech(),
    {
        copy_matrix(&self.eschelon)
    }

    /// A copy of the transform matrix.
    pub fn transform_rows(&self) -> (r: Vec<Vec<Scalar>>)
        ensures
            smat(r@) == self.tr(),
    {
        copy_matrix(&self.transform)
    }
}

} // verus!