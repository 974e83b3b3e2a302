//! The scalar field of the Ristretto group, modelled by the integer each
//! scalar represents.
//!
//! A `curve25519_dalek` scalar is opaque to the verifier. Its mathematical
//! content — the residue it represents modulo the group order — is named by
//! the abstraction function [`sval`], and every operation the library needs
//! is wrapped in a trusted function whose contract states its effect on
//! that residue, as a congruence modulo the group order.

use vstd::prelude::*;
use vstd::arithmetic::div_mod::lemma_fundamental_div_mod;
use vstd::arithmetic::div_mod::lemma_fundamental_div_mod_converse;
use vstd::arithmetic::div_mod::lemma_mod_multiples_basic;
use vstd::arithmetic::div_mod::lemma_mod_division_less_than_divisor;
use vstd::arithmetic::div_mod::lemma_small_mod;
use curve25519_dalek::scalar::Scalar;

verus! {

/// The order of the Ristretto group and of its scalar field:
/// `2^252 + 27742317777372353535851937790883648493`, a prime.
pub open spec fn group_order() -> nat {
    0x1000000000000000000000000000000014def9dea2f79cd65812631a5cf5d3ednat
}

/// The group order as an integer modulus.
pub open spec fn ord() -> int {
    group_order() as int
}

/// Congruence modulo the group order.
pub open spec fn cong(a: int, b: int) -> bool {
    (a - b) % ord() == 0
}

/// A canonical field residue.
pub open spec fn in_field(a: int) -> bool {
    0 <= a < ord()
}

#[verifier::external_type_specification]
#[verifier::external_body]
pub struct ExScalar(Scalar);

/// The integer a scalar represents. Scalars constructed through the public
/// API of `curve25519_dalek` are always canonical representatives, so this
/// is the scalar's value in `[0, group_order())`.
pub uninterp spec fn scalar_rep(s: Scalar) -> nat;

/// The field element a scalar stands for: its representative reduced
/// modulo the group order, so the model is a residue by construction.
pub open spec fn sval(s: Scalar) -> int {
    (scalar_rep(s) % group_order()) as int
}

/// The residues of a sequence of scalars.
pub open spec fn svals(v: Seq<Scalar>) -> Seq<int> {
    Seq::new(v.len(), |i: int| sval(v[i]))
}

/// The residues of a matrix of scalars, row by row.
pub open spec fn smat(m: Seq<Vec<Scalar>>) -> Seq<Seq<int>> {
    Seq::new(m.len(), |i: int| svals(m[i]@))
}

/// The residue of a scalar is a canonical residue.
pub proof fn lemma_sval_in_field(s: Scalar)
    ensures
        in_field(sval(s)),
{
    lemma_mod_division_less_than_divisor(scalar_rep(s) as int, ord());
}

proof fn lemma_zero_mod_add(x: int, y: int)
    requires
        x % ord() == 0,
        y % ord() == 0,
    ensures
        (x + y) % ord() == 0,
{
    lemma_fundamental_div_mod(x, ord());
    lemma_fundamental_div_mod(y, ord());
    let q = x / ord() + y / ord();
    assert(x + y == ord() * q) by (nonlinear_arith)
        requires
            x == ord() * (x / ord()),
            y == ord() * (y / ord()),
            q == x / ord() + y / ord(),
    ;
    lemma_mod_multiples_basic(q, ord());
}

proof fn lemma_zero_mod_mul(x: int, c: int)
    requires
        x % ord() == 0,
    ensures
        (x * c) % ord() == 0,
{
    lemma_fundamental_div_mod(x, ord());
    let q = (x / ord()) * c;
    assert(x * c == ord() * q) by (nonlinear_arith)
        requires
            x == ord() * (x / ord()),
            q == (x / ord()) * c,
    ;
    lemma_mod_multiples_basic(q, ord());
}

/// Congruence is reflexive.
pub proof fn lemma_cong_refl(a: int)
    ensures
        cong(a, a),
{
    lemma_mod_multiples_basic(0, ord());
}

/// Congruence is transitive.
pub proof fn lemma_cong_trans(a: int, b: int, c: int)
    requires
        cong(a, b),
        cong(b, c),
    ensures
        cong(a, c),
{
    lemma_zero_mod_add(a - b, b - c);
}

/// Congruence is symmetric.
pub proof fn lemma_cong_sym(a: int, b: int)
    requires
        cong(a, b),
    ensures
        cong(b, a),
{
    lemma_zero_mod_mul(a - b, -1);
}

/// Congruences add.
pub proof fn lemma_cong_add(a: int, b: int, c: int, d: int)
    requires
        cong(a, c),
        cong(b, d),
    ensures
        cong(a + b, c + d),
{
    lemma_zero_mod_add(a - c, b - d);
}

/// Congruences subtract.
pub proof fn lemma_cong_sub(a: int, b: int, c: int, d: int)
    requires
        cong(a, c),
        cong(b, d),
    ensures
        cong(a - b, c - d),
{
    lemma_zero_mod_mul(b - d, -1);
    lemma_zero_mod_add(a - c, d - b);
}

/// Congruences multiply.
pub proof fn lemma_cong_mul(a: int, b: int, c: int, d: int)
    requires
        cong(a, c),
        cong(b, d),
    ensures
        cong(a * b, c * d),
{
    lemma_zero_mod_mul(a - c, b);
    lemma_zero_mod_mul(b - d, c);
    assert((a - c) * b + (b - d) * c == a * b - c * d) by (nonlinear_arith);
    lemma_zero_mod_add((a - c) * b, (b - d) * c);
}

/// Two canonical residues that are congruent are equal.
pub proof fn lemma_cong_in_field(a: int, b: int)
    requires
        cong(a, b),
        in_field(a),
        in_field(b),
    ensures
        a == b,
{
    let d = a - b;
    lemma_fundamental_div_mod(d, ord());
    let q = d / ord();
    assert(d == ord() * q);
    if q >= 1 {
        assert(ord() * q >= ord()) by (nonlinear_arith)
            requires
                q >= 1,
                ord() > 0,
        ;
    }
    if q <= -1 {
        assert(ord() * q <= -ord()) by (nonlinear_arith)
            requires
                q <= -1,
                ord() > 0,
        ;
    }
}

/// The canonical residue of an integer.
pub open spec fn residue(a: int) -> int {
    a % ord()
}

/// A canonical residue congruent to `a` is the canonical residue of `a`.
pub proof fn lemma_residue_unique(x: int, a: int)
    requires
        cong(x, a),
        in_field(x),
    ensures
        x == residue(a),
{
    lemma_fundamental_div_mod(a, ord());
    lemma_mod_multiples_basic(-(a / ord()), ord());
    assert(a % ord() - a == ord() * (-(a / ord()))) by (nonlinear_arith)
        requires
            a == ord() * (a / ord()) + a % ord(),
    ;
    lemma_mod_division_less_than_divisor(a, ord());
    lemma_cong_sym(residue(a), a);
    lemma_cong_trans(x, a, residue(a));
    lemma_cong_in_field(x, residue(a));
}

/// A nonzero canonical residue is not congruent to zero.
pub proof fn lemma_in_field_not_cong_zero(a: int)
    requires
        in_field(a),
        a != 0,
    ensures
        !cong(a, 0),
{
    lemma_small_mod(a as nat, group_order());
}


/// The value of a little-endian byte string.
pub open spec fn le_val(s: Seq<u8>) -> nat
    decreases s.len(),
{
    if s.len() == 0 {
        0
    } else {
        (s[0] + 256 * le_val(s.drop_first())) as nat
    }
}

/// The `n`-byte little-endian encoding of a value.
pub open spec fn le_bytes(v: nat, n: nat) -> Seq<u8>
    decreases n,
{
    if n == 0 {
        Seq::empty()
    } else {
        seq![(v % 256) as u8] + le_bytes(v / 256, (n - 1) as nat)
    }
}

/// The `n`-th power of 256: the number of values `n` bytes can carry.
pub open spec fn pow256(n: nat) -> nat
    decreases n,
{
    if n == 0 {
        1nat
    } else {
        256 * pow256((n - 1) as nat)
    }
}

/// An encoding has the requested length.
pub proof fn lemma_le_bytes_len(v: nat, n: nat)
    ensures
        le_bytes(v, n).len() == n,
    decreases n,
{
    if n > 0 {
        lemma_le_bytes_len(v / 256, (n - 1) as nat);
    }
}

/// The value of a byte string fits in its length.
pub proof fn lemma_le_val_bound(s: Seq<u8>)
    ensures
        le_val(s) < pow256(s.len()),
    decreases s.len(),
{
    if s.len() > 0 {
        lemma_le_val_bound(s.drop_first());
    }
}

/// Encoding the value of a byte string gives the bytes back.
pub proof fn lemma_le_bytes_le_val(s: Seq<u8>)
    ensures
        le_bytes(le_val(s), s.len()) == s,
    decreases s.len(),
{
    if s.len() > 0 {
        let v = le_val(s) as int;
        lemma_fundamental_div_mod_converse(v, 256, le_val(s.drop_first()) as int, s[0] as int);
        lemma_le_bytes_le_val(s.drop_first());
        assert(le_bytes(le_val(s), s.len()) =~= s);
    } else {
        assert(le_bytes(le_val(s), s.len()) =~= s);
    }
}

/// A longer encoding of the same value begins with the shorter one.
pub proof fn lemma_le_bytes_take(v: nat, n: nat, m: nat)
    requires
        n <= m,
    ensures
        le_bytes(v, m).take(n as int) == le_bytes(v, n),
    decreases n,
{
    lemma_le_bytes_len(v, m);
    if n == 0 {
        assert(le_bytes(v, m).take(0) =~= le_bytes(v, 0nat));
    } else {
        lemma_le_bytes_take(v / 256, (n - 1) as nat, (m - 1) as nat);
        lemma_le_bytes_len(v / 256, (m - 1) as nat);
        assert(le_bytes(v, m).take(n as int) =~= le_bytes(v, n)) by {
            assert(le_bytes(v, m).take(n as int).drop_first() =~= le_bytes(v / 256, (m - 1) as nat)
                .take(n as int - 1));
            assert(le_bytes(v, n).drop_first() =~= le_bytes(v / 256, (n - 1) as nat));
            assert(le_bytes(v, m).take(n as int)[0] == le_bytes(v, n)[0]);
            assert forall|y: int| 0 <= y < n implies le_bytes(v, m).take(n as int)[y] == le_bytes(
                v,
                n,
            )[y] by {
                if y > 0 {
                    assert(le_bytes(v, m).take(n as int)[y] == le_bytes(v, m).take(
                        n as int,
                    ).drop_first()[y - 1]);
                    assert(le_bytes(v, n)[y] == le_bytes(v, n).drop_first()[y - 1]);
                }
            }
        }
    }
}

/// A trailing zero byte does not change the value.
pub proof fn lemma_le_val_zero_ext(s: Seq<u8>)
    ensures
        le_val(s.push(0)) == le_val(s),
    decreases s.len(),
{
    if s.len() == 0 {
        assert(s.push(0).drop_first() =~= Seq::<u8>::empty());
        assert(le_val(Seq::<u8>::empty()) == 0);
        assert(s.push(0)[0] == 0);
    } else {
        assert(s.push(0).drop_first() =~= s.drop_first().push(0));
        assert(s.push(0)[0] == s[0]);
        lemma_le_val_zero_ext(s.drop_first());
    }
}

/// Relies on `Scalar::from_bytes_mod_order` of curve25519_dalek:
/// reduces a 256-bit little-endian integer modulo the group order.
#[verifier::external_body]
pub(crate) fn scalar_from_le_bytes(b: &Vec<u8>) -> (r: Scalar)
    requires
        b@.len() == 32,
    ensures
        sval(r) == (le_val(b@) % group_order()) as int,
{
    let mut array = [0u8; 32];
    array.copy_from_slice(b.as_slice());
    Scalar::from_bytes_mod_order(array)
}

/// Relies on `Scalar::to_bytes` of curve25519_dalek: the canonical
/// 32-byte little-endian encoding of the scalar's residue.
#[verifier::external_body]
pub(crate) fn scalar_to_le_bytes(s: &Scalar) -> (r: Vec<u8>)
    ensures
        r@.len() == 32,
        le_val(r@) as int == sval(*s),
{
    s.to_bytes().to_vec()
}

/// Relies on `Scalar::ZERO` of curve25519_dalek: the zero scalar, whose
/// canonical representative is the integer zero.
#[verifier::external_body]
pub(crate) fn scalar_zero() -> (r: Scalar)
    ensures
        scalar_rep(r) == 0,
        sval(r) == 0,
{
    Scalar::ZERO
}

/// Relies on `Scalar::ONE` of curve25519_dalek: the scalar one.
#[verifier::external_body]
pub(crate) fn scalar_one() -> (r: Scalar)
    ensures
        sval(r) == 1,
{
    Scalar::ONE
}

/// Relies on `From<u8> for Scalar` of curve25519_dalek: embeds a small
/// integer into the field.
#[verifier::external_body]
pub(crate) fn scalar_from_u8(x: u8) -> (r: Scalar)
    ensures
        sval(r) == x as int,
{
    Scalar::from(x)
}

/// Relies on `Add for Scalar` of curve25519_dalek: addition modulo the
/// group order.
#[verifier::external_body]
pub(crate) fn scalar_add(a: &Scalar, b: &Scalar) -> (r: Scalar)
    ensures
        cong(sval(r), sval(*a) + sval(*b)),
{
    a + b
}

/// Relies on `Sub for Scalar` of curve25519_dalek: subtraction modulo the
/// group order.
#[verifier::external_body]
pub(crate) fn scalar_sub(a: &Scalar, b: &Scalar) -> (r: Scalar)
    ensures
        cong(sval(r), sval(*a) - sval(*b)),
{
    a - b
}

/// Relies on `Mul for Scalar` of curve25519_dalek: multiplication modulo
/// the group order. The second clause holds because the group order is
/// prime, as its documentation states: a product of two nonzero residues
/// cannot be divisible by the prime modulus.
#[verifier::external_body]
pub(crate) fn scalar_mul(a: &Scalar, b: &Scalar) -> (r: Scalar)
    ensures
        cong(sval(r), sval(*a) * sval(*b)),
        sval(*a) != 0 && sval(*b) != 0 ==> sval(r) != 0,
{
    a * b
}

/// Relies on `Scalar::invert` of curve25519_dalek: the multiplicative
/// inverse of a nonzero scalar, which exists because the group order is
/// prime.
#[verifier::external_body]
pub(crate) fn scalar_invert(a: &Scalar) -> (r: Scalar)
    requires
        sval(*a) != 0,
    ensures
        cong(sval(r) * sval(*a), 1),
{
    a.invert()
}

/// Relies on `PartialEq for Scalar` of curve25519_dalek: scalars are kept
/// canonical, so byte equality against `Scalar::ZERO` decides whether the
/// represented residue is zero.
#[verifier::external_body]
pub(crate) fn scalar_is_zero(a: &Scalar) -> (r: bool)
    ensures
        r == (sval(*a) == 0),
{
    *a == Scalar::ZERO
}

} // verus!
