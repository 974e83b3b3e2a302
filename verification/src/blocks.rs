//! The commitment key and the chunk codec.
//!
//! A [`Committer`] holds a fixed vector of group generators and commits
//! to a scalar vector by multiscalar multiplication. Group points are
//! opaque to the verifier; since the Ristretto group is cyclic of prime
//! order, every point is modelled by its discrete logarithm with respect
//! to the base point, named by [`pval`], and the group operations the
//! library relies on are stated over those logarithms.
//!
//! The codec maps byte blocks to scalar vectors and back, in two
//! schemes: a packed one that fits 252 data bits into each scalar and
//! collects the stripped high nibbles into one tail scalar for every 63
//! words, and a simple one that widens each 31-byte word to a scalar.

use vstd::prelude::*;
use vstd::arithmetic::div_mod::lemma_small_mod;
use curve25519_dalek::constants::RISTRETTO_BASEPOINT_POINT;
use curve25519_dalek::ristretto::RistrettoPoint;
use curve25519_dalek::scalar::Scalar;
use curve25519_dalek::traits::MultiscalarMul;
use rand::Rng;
use crate::field::{sval, svals, group_order, ord, cong, in_field, le_val, le_bytes, pow256,
    scalar_from_le_bytes, scalar_to_le_bytes, lemma_le_bytes_len, lemma_le_val_bound,
    lemma_le_bytes_le_val, lemma_le_bytes_take, lemma_le_val_zero_ext, lemma_sval_in_field};
use crate::linalg::{dot, vadd, vscale, vec_in_field, lemma_dot_add_left, lemma_dot_scale_left};
use crate::CodingError;

verus! {

#[verifier::external_type_specification]
#[verifier::external_body]
pub struct ExRistrettoPoint(RistrettoPoint);

/// The discrete logarithm of a group point with respect to the base
/// point. The Ristretto group is cyclic of prime order, so every point
/// has exactly one such logarithm in `[0, group_order())`.
pub uninterp spec fn point_rep(p: RistrettoPoint) -> nat;

/// The residue a group point stands for: its discrete logarithm,
/// reduced so that the model is a residue by construction.
pub open spec fn pval(p: RistrettoPoint) -> int {
    (point_rep(p) % group_order()) as int
}

/// The residues of a sequence of group points.
pub open spec fn pvals(v: Seq<RistrettoPoint>) -> Seq<int> {
    Seq::new(v.len(), |i: int| pval(v[i]))
}

/// Relies on `RistrettoPoint::multiscalar_mul` of curve25519_dalek: the
/// sum of each scalar times its point. Writing points by their discrete
/// logarithms, the result's logarithm is the dot product of the scalar
/// residues with the point logarithms, over as many generators as there
/// are scalars. The logarithm of the result, like that of every point,
/// lies below the group order.
#[verifier::external_body]
pub(crate) fn msm(scalars: &Vec<Scalar>, points: &Vec<RistrettoPoint>) -> (r: RistrettoPoint)
    requires
        scalars@.len() <= points@.len(),
    ensures
        point_rep(r) < group_order(),
        cong(pval(r), dot(svals(scalars@), pvals(points@))),
{
    RistrettoPoint::multiscalar_mul(scalars.as_slice(), &points.as_slice()[..scalars.len()])
}

/// The logarithm of a point is a canonical residue.
pub proof fn lemma_pval_in_field(p: RistrettoPoint)
    ensures
        in_field(pval(p)),
{
    vstd::arithmetic::div_mod::lemma_mod_division_less_than_divisor(point_rep(p) as int, ord());
}

/// Relies on `PartialEq for RistrettoPoint` of curve25519_dalek:
/// equality in the group. The map from residues to points is one-to-one
/// in a cyclic group of prime order, so group equality is equality of
/// the modelled logarithms.
#[verifier::external_body]
pub(crate) fn point_eq(a: &RistrettoPoint, b: &RistrettoPoint) -> (r: bool)
    ensures
        r == (pval(*a) == pval(*b)),
{
    a == b
}

/// Relies on `thread_rng` of rand and the base point of
/// curve25519_dalek: draws `n` group points at random. Nothing is
/// assumed of the points beyond their count.
#[verifier::external_body]
fn gen_points(n: usize) -> (r: Vec<RistrettoPoint>)
    ensures
        r@.len() == n,
{
    let mut rng = rand::thread_rng();
    (0..n).map(|_| RISTRETTO_BASEPOINT_POINT * Scalar::from(rng.gen::<u128>())).collect()
}

/// Relies on `thread_rng` of rand: draws `n` bytes at random. Nothing
/// is assumed of the values beyond their count.
#[verifier::external_body]
pub(crate) fn random_bytes(n: usize) -> (r: Vec<u8>)
    ensures
        r@.len() == n,
{
    let mut rng = rand::thread_rng();
    (0..n).map(|_| rng.gen()).collect()
}

/// A fixed, session-shared vector of group generators.
pub struct Committer {
    generators: Vec<RistrettoPoint>,
}

impl Committer {
    /// The generators' residues: the committer's mathematical content.
    pub closed spec fn gens(self) -> Seq<int> {
        pvals(self.generators@)
    }

    /// A committer over `n` freshly drawn generators.
    pub fn new(n: usize) -> (r: Self)
        ensures
            r.gens().len() == n,
    {
        Committer { generators: gen_points(n) }
    }

    /// The number of generators: the longest scalar vector that can be
    /// committed to.
    pub fn len(&self) -> (r: usize)
        ensures
            r == self.gens().len(),
    {
        self.generators.len()
    }

    /// The generator vector: what a canonical serialization of the
    /// committer must carry.
    pub fn generators(&self) -> (r: &Vec<RistrettoPoint>)
        ensures
            pvals(r@) == self.gens(),
    {
        &self.generators
    }

    /// A committer over an agreed generator vector, as received from a
    /// peer.
    pub fn from_generators(generators: Vec<RistrettoPoint>) -> (r: Self)
        ensures
            r.gens() == pvals(generators@),
    {
        Committer { generators }
    }

    /// The Pedersen commitment to a scalar vector: the sum of each
    /// scalar times its generator. Fails exactly when the vector is
    /// longer than the generator vector.
    pub fn commit(&self, scalars: &Vec<Scalar>) -> (r: Result<RistrettoPoint, CodingError>)
        ensures
            match r {
                Ok(p) => scalars@.len() <= self.gens().len() && cong(
                    pval(p),
                    dot(svals(scalars@), self.gens()),
                ),
                Err(e) => e == CodingError::InputTooLong && scalars@.len() > self.gens().len(),
            },
    {
        if scalars.len() > self.generators.len() {
            return Err(CodingError::InputTooLong);
        }
        Ok(msm(scalars, &self.generators))
    }
}

/// A random byte vector in which every 32nd byte is forced to zero, so
/// that the block is admissible for both packing schemes.
pub fn random_u8_slice(length: usize) -> (r: Vec<u8>)
    ensures
        r@.len() == length,
        forall|i: int| 0 <= i < length && i % 32 == 31 ==> r@[i] == 0,
{
    let mut ret = random_bytes(length);
    let mut i: usize = 0;
    while i < ret.len()
        invariant
            ret@.len() == length,
            i <= length,
            forall|m: int| 0 <= m < i && m % 32 == 31 ==> ret@[m] == 0,
        decreases length - i,
    {
        if i % 32 == 31 {
            ret[i] = 0;
        }
        i += 1;
    }
    ret
}

/// Splits a block into `num_chunks` borrowed chunks of equal length.
/// Fails exactly when the block's length is not divisible by the chunk
/// count.
pub fn block_to_chunks<'a>(block: &'a [u8], num_chunks: usize) -> (r: Result<
    Vec<&'a [u8]>,
    CodingError,
>)
    requires
        num_chunks > 0,
        block@.len() > 0,
    ensures
        match r {
            Ok(v) => {
                let csize = block@.len() as int / num_chunks as int;
                &&& block@.len() % (num_chunks as nat) == 0
                &&& v@.len() == num_chunks
                &&& forall|i: int|
                    0 <= i < num_chunks ==> (#[trigger] v@[i])@ == block@.subrange(
                        i * csize,
                        (i + 1) * csize,
                    )
            },
            Err(e) => e == CodingError::InvalidLength && block@.len() % (num_chunks as nat) != 0,
        },
{
    if block.len() % num_chunks != 0 {
        return Err(CodingError::InvalidLength);
    }
    let chunk_size = block.len() / num_chunks;
    let ghost csize = block@.len() as int / num_chunks as int;
    proof {
        vstd::arithmetic::div_mod::lemma_fundamental_div_mod(block@.len() as int,
            num_chunks as int);
        assert((num_chunks as int) * csize == csize * (num_chunks as int)) by (nonlinear_arith);
    }
    let mut v: Vec<&'a [u8]> = Vec::new();
    let mut i: usize = 0;
    while i < num_chunks
        invariant
            0 < num_chunks,
            block@.len() % (num_chunks as nat) == 0,
            chunk_size == block@.len() as int / num_chunks as int,
            csize == chunk_size,
            chunk_size * num_chunks == block@.len(),
            block@.len() <= usize::MAX,
            i <= num_chunks,
            v@.len() == i,
            forall|m: int|
                0 <= m < i ==> (#[trigger] v@[m])@ == block@.subrange(m * csize, (m + 1) * csize),
        decreases num_chunks - i,
    {
        proof {
            assert((i + 1) * chunk_size <= num_chunks * chunk_size) by (nonlinear_arith)
                requires
                    i + 1 <= num_chunks,
                    chunk_size >= 0,
            ;
            assert(i * chunk_size + chunk_size == (i + 1) * chunk_size) by (nonlinear_arith);
            assert(num_chunks * chunk_size == chunk_size * num_chunks) by (nonlinear_arith);
            assert(i * chunk_size >= 0) by (nonlinear_arith)
                requires
                    i >= 0,
                    chunk_size >= 0,
            ;
        }
        let s = vstd::slice::slice_subrange(block, i * chunk_size, i * chunk_size + chunk_size);
        v.push(s);
        i += 1;
    }
    Ok(v)
}

/// The scalar residues of a block under the simple scheme: one
/// little-endian 31-byte word per scalar.
pub open spec fn encode31(b: Seq<u8>) -> Seq<int> {
    Seq::new(b.len() / 31, |i: int| le_val(b.subrange(31 * i, 31 * i + 31)) as int)
}

/// The bytes recovered from scalar residues under the simple scheme:
/// the first 31 bytes of each residue's little-endian encoding.
pub open spec fn decode31(v: Seq<int>) -> Seq<u8> {
    Seq::new(31 * v.len(), |i: int| le_bytes(v[i / 31] as nat, 31)[i % 31])
}

/// Values below `2^248` are below the group order.
proof fn lemma_pow31_small()
    ensures
        pow256(31) < group_order(),
{
    reveal_with_fuel(pow256, 33);
}

/// Every byte block whose length the simple scheme admits comes back
/// unchanged from the encode–decode round trip.
pub proof fn lemma_roundtrip_31(b: Seq<u8>)
    requires
        b.len() % 31 == 0,
    ensures
        decode31(encode31(b)) == b,
{
    let e = encode31(b);
    assert(31 * e.len() == b.len());
    assert forall|i: int| 0 <= i < b.len() implies decode31(e)[i] == b[i] by {
        vstd::arithmetic::div_mod::lemma_fundamental_div_mod(i, 31);
        let q = i / 31;
        let w = b.subrange(31 * q, 31 * q + 31);
        assert(e[q] == le_val(w) as int);
        lemma_le_bytes_le_val(w);
        assert(le_bytes(le_val(w), 31) == w);
        assert(decode31(e)[i] == le_bytes(e[q] as nat, 31)[i % 31]);
        assert(w[i % 31] == b[31 * q + i % 31]);
    }
    assert(decode31(encode31(b)) =~= b);
}

/// Encodes a chunk under the simple scheme: each 31-byte word is
/// zero-extended to 32 bytes and read as a scalar. Fails exactly when
/// the chunk's length is not divisible by 31.
pub fn chunk_to_scalars_31(chunk: &[u8]) -> (r: Result<Vec<Scalar>, CodingError>)
    ensures
        match r {
            Ok(v) => chunk@.len() % 31 == 0 && svals(v@) == encode31(chunk@),
            Err(e) => e == CodingError::InvalidLength && chunk@.len() % 31 != 0,
        },
{
    if chunk.len() % 31 != 0 {
        return Err(CodingError::InvalidLength);
    }
    let n = chunk.len() / 31;
    proof {
        vstd::arithmetic::div_mod::lemma_fundamental_div_mod(chunk@.len() as int, 31);
    }
    let mut out: Vec<Scalar> = Vec::new();
    let mut i: usize = 0;
    while i < n
        invariant
            chunk@.len() % 31 == 0,
            chunk@.len() <= usize::MAX,
            n == chunk@.len() / 31,
            31 * n == chunk@.len(),
            i <= n,
            out@.len() == i,
            forall|m: int| 0 <= m < i ==> #[trigger] svals(out@)[m] == encode31(chunk@)[m],
        decreases n - i,
    {
        let mut word: Vec<u8> = Vec::new();
        let mut j: usize = 0;
        while j < 31
            invariant
                chunk@.len() <= usize::MAX,
                31 * n == chunk@.len(),
                i < n,
                j <= 31,
                word@.len() == j,
                word@ == chunk@.subrange(31 * i, 31 * i + j),
            decreases 31 - j,
        {
            proof {
                assert(31 * i + 31 <= 31 * n) by (nonlinear_arith)
                    requires
                        i + 1 <= n,
                ;
            }
            let byte = *vstd::slice::slice_index_get(chunk, i * 31 + j);
            word.push(byte);
            proof {
                assert(chunk@.subrange(31 * i, 31 * i + j + 1) =~= chunk@.subrange(
                    31 * i,
                    31 * i + j,
                ).push(chunk@[31 * i + j]));
            }
            j += 1;
        }
        let ghost w31 = word@;
        word.push(0u8);
        proof {
            lemma_le_val_zero_ext(w31);
            lemma_le_val_bound(w31);
            lemma_pow31_small();
            lemma_small_mod(le_val(word@), group_order());
        }
        let s = scalar_from_le_bytes(&word);
        let ghost out0 = out@;
        out.push(s);
        proof {
            assert forall|m: int| 0 <= m < i + 1 implies #[trigger] svals(out@)[m] == encode31(
                chunk@,
            )[m] by {
                if m < i {
                    assert(out@[m] == out0[m]);
                    assert(svals(out0)[m] == sval(out0[m]));
                } else {
                    assert(sval(s) == le_val(w31) as int);
                    assert(encode31(chunk@)[m] == le_val(chunk@.subrange(31 * m, 31 * m + 31)) as int);
                }
            }
        }
        i += 1;
    }
    proof {
        assert(svals(out@) =~= encode31(chunk@));
    }
    Ok(out)
}

/// Decodes scalars under the simple scheme: the first 31 bytes of each
/// scalar's canonical encoding, in order.
pub fn scalars_to_chunk_31(scalars: &[Scalar]) -> (r: Vec<u8>)
    ensures
        r@ == decode31(svals(scalars@)),
{
    let n = scalars.len();
    let mut out: Vec<u8> = Vec::new();
    let mut i: usize = 0;
    while i < n
        invariant
            n == scalars@.len(),
            i <= n,
            out@.len() == 31 * i,
            forall|m: int| 0 <= m < 31 * i ==> #[trigger] out@[m] == decode31(svals(scalars@))[m],
        decreases n - i,
    {
        let w = scalar_to_le_bytes(vstd::slice::slice_index_get(scalars, i));
        proof {
            lemma_sval_in_field(scalars@[i as int]);
            lemma_le_bytes_le_val(w@);
            assert(le_bytes(le_val(w@), 32) == w@);
            assert(le_val(w@) as int == svals(scalars@)[i as int]);
            lemma_le_bytes_take(le_val(w@), 31, 32);
            lemma_le_bytes_len(le_val(w@), 31);
        }
        let mut j: usize = 0;
        while j < 31
            invariant
                n == scalars@.len(),
                i < n,
                j <= 31,
                w@.len() == 32,
                le_bytes(svals(scalars@)[i as int] as nat, 31) == w@.take(31),
                out@.len() == 31 * i + j,
                forall|m: int|
                    0 <= m < 31 * i + j ==> #[trigger] out@[m] == decode31(svals(scalars@))[m],
            decreases 31 - j,
        {
            let byte = w[j];
            let ghost out0 = out@;
            out.push(byte);
            proof {
                assert forall|m: int| 0 <= m < 31 * i + j + 1 implies #[trigger] out@[m] == decode31(
                    svals(scalars@),
                )[m] by {
                    if m < 31 * i + j {
                        assert(out@[m] == out0[m]);
                    } else {
                        let v = svals(scalars@);
                        assert(m == 31 * i + j);
                        vstd::arithmetic::div_mod::lemma_fundamental_div_mod_converse(m, 31,
                            i as int, j as int);
                        assert(decode31(v)[m] == le_bytes(v[i as int] as nat, 31)[j as int]);
                        assert(le_bytes(v[i as int] as nat, 31)[j as int] == w@.take(31)[j as int]);
                    }
                }
            }
            j += 1;
        }
        i += 1;
    }
    proof {
        assert(out@ =~= decode31(svals(scalars@)));
    }
    out
}

/// The 32-byte word at index `x` of a block.
pub open spec fn word_at(b: Seq<u8>, x: int) -> Seq<u8> {
    b.subrange(32 * x, 32 * x + 32)
}

/// The high nibble of a word's last byte: the bits the packed scheme
/// strips so that 252 data bits remain.
pub open spec fn hi_nibble(w: Seq<u8>) -> u8 {
    w[31] >> 4
}

/// The word with the high nibble of its last byte cleared.
pub open spec fn masked(w: Seq<u8>) -> Seq<u8> {
    w.update(31, w[31] & 0x0f)
}

/// The number of 32-byte words in a block.
pub open spec fn words_of(b: Seq<u8>) -> int {
    b.len() as int / 32
}

/// The number of super-blocks: groups of up to 63 words.
pub open spec fn groups_of(b: Seq<u8>) -> int {
    (words_of(b) + 62) / 63
}

/// The number of words in group `g` of a block.
pub open spec fn group_size(b: Seq<u8>, g: int) -> int {
    if words_of(b) - 63 * g < 63 {
        words_of(b) - 63 * g
    } else {
        63
    }
}

/// The stripped nibbles of the first `p` words of group `g`, packed two
/// to a byte at offsets zero and four: byte `j` of the group's tail.
pub open spec fn tail_byte_upto(b: Seq<u8>, g: int, j: int, p: int) -> u8 {
    let lo: u8 = if 2 * j < p {
        hi_nibble(word_at(b, 63 * g + 2 * j))
    } else {
        0
    };
    let hn: u8 = if 2 * j + 1 < p {
        hi_nibble(word_at(b, 63 * g + 2 * j + 1))
    } else {
        0
    };
    lo | (hn << 4)
}

/// Byte `j` of the tail of group `g`.
pub open spec fn tail_byte(b: Seq<u8>, g: int, j: int) -> u8 {
    tail_byte_upto(b, g, j, group_size(b, g))
}

/// The 32 tail bytes of group `g`.
pub open spec fn tail_bytes_of(b: Seq<u8>, g: int) -> Seq<u8> {
    Seq::new(32, |j: int| tail_byte(b, g, j))
}

/// The scalar residues of a block under the packed scheme: per group,
/// one scalar for each masked word and one tail scalar.
pub open spec fn encode_packed(b: Seq<u8>) -> Seq<int> {
    Seq::new((words_of(b) + groups_of(b)) as nat, |s: int| {
        let g = s / 64;
        let p = s % 64;
        if p < group_size(b, g) {
            le_val(masked(word_at(b, 63 * g + p))) as int
        } else {
            le_val(tail_bytes_of(b, g)) as int
        }
    })
}

/// The number of scalar groups on decode: up to 64 scalars each.
pub open spec fn dec_groups(v: Seq<int>) -> int {
    (v.len() + 63) as int / 64
}

/// The number of scalars in decode group `g`.
pub open spec fn dec_group_size(v: Seq<int>, g: int) -> int {
    if v.len() - 64 * g < 64 {
        v.len() - 64 * g
    } else {
        64
    }
}

/// Byte `m` of word `p` of decode group `g`: the data scalar's bytes,
/// with the high nibble restored from the tail scalar in the last byte.
pub open spec fn dec_byte(v: Seq<int>, g: int, p: int, m: int) -> u8 {
    let data = le_bytes(v[64 * g + p] as nat, 32);
    if m < 31 {
        data[m]
    } else {
        let tb = le_bytes(v[64 * g + dec_group_size(v, g) - 1] as nat, 32);
        let nib: u8 = if p % 2 == 0 {
            tb[p / 2] & 0x0f
        } else {
            (tb[p / 2] >> 4) & 0x0f
        };
        data[31] | (nib << 4)
    }
}

/// The bytes recovered from scalar residues under the packed scheme.
pub open spec fn decode_packed(v: Seq<int>) -> Seq<u8> {
    Seq::new((32 * (v.len() - dec_groups(v))) as nat, |i: int| {
        let g = i / 2016;
        let o = i % 2016;
        dec_byte(v, g, o / 32, o % 32)
    })
}

/// The value of a byte string, split off at its last byte.
proof fn lemma_le_val_snoc(s: Seq<u8>)
    requires
        s.len() > 0,
    ensures
        le_val(s) == le_val(s.take(s.len() - 1)) + pow256((s.len() - 1) as nat) * s[s.len() - 1],
    decreases s.len(),
{
    if s.len() == 1 {
        assert(s.take(0) =~= Seq::<u8>::empty());
        assert(s.drop_first() =~= Seq::<u8>::empty());
        assert(le_val(Seq::<u8>::empty()) == 0);
        assert(le_val(s) == s[0] + 256 * le_val(s.drop_first()));
        assert(le_val(s.take(0)) == 0);
        assert(pow256((s.len() - 1) as nat) == 1);
        assert(pow256((s.len() - 1) as nat) * s[s.len() - 1] == s[0]) by (nonlinear_arith)
            requires
                pow256((s.len() - 1) as nat) == 1,
                s.len() == 1,
                s[s.len() - 1] == s[0],
        ;
    } else {
        let sd = s.drop_first();
        lemma_le_val_snoc(sd);
        assert(sd.len() == s.len() - 1);
        assert(s.take(s.len() - 1).drop_first() =~= sd.take(sd.len() - 1));
        assert(s.take(s.len() - 1)[0] == s[0]);
        assert(sd[sd.len() - 1] == s[s.len() - 1]);
        assert(pow256((s.len() - 1) as nat) == 256 * pow256((sd.len() - 1) as nat));
        assert(le_val(s.take(s.len() - 1)) == s[0] + 256 * le_val(sd.take(sd.len() - 1)));
        assert(256 * (le_val(sd.take(sd.len() - 1)) + pow256((sd.len() - 1) as nat) * sd[sd.len()
            - 1]) == 256 * le_val(sd.take(sd.len() - 1)) + (256 * pow256((sd.len() - 1) as nat))
            * sd[sd.len() - 1]) by (nonlinear_arith);
        assert(le_val(s) == s[0] + 256 * le_val(sd));
        assert(256 * le_val(sd) == 256 * le_val(sd.take(sd.len() - 1)) + (256 * pow256((sd.len()
            - 1) as nat)) * sd[sd.len() - 1]);
        assert(le_val(s) == le_val(s.take(s.len() - 1)) + (256 * pow256((sd.len() - 1) as nat))
            * s[s.len() - 1]);
    }
}

/// A 32-byte string whose last byte is below 16 encodes a value below
/// the group order.
proof fn lemma_nibble_fits(s: Seq<u8>)
    requires
        s.len() == 32,
        s[31] < 16,
    ensures
        le_val(s) < group_order(),
{
    lemma_le_val_snoc(s);
    lemma_le_val_bound(s.take(31));
    assert(pow256(31) * s[31] <= pow256(31) * 15) by (nonlinear_arith)
        requires
            s[31] < 16,
            pow256(31) >= 0,
    ;
    assert(pow256(31) == 0x100000000000000000000000000000000000000000000000000000000000000) by {
        reveal_with_fuel(pow256, 33);
    }
}

/// Encodes a chunk under the packed scheme: for every super-block of up
/// to 63 words, one scalar per masked word, then the tail scalar that
/// carries the stripped high nibbles. Fails exactly when the chunk's
/// length is not divisible by 32.
#[verifier::rlimit(60)]
pub fn chunk_to_scalars(chunk: &[u8]) -> (r: Result<Vec<Scalar>, CodingError>)
    ensures
        match r {
            Ok(v) => chunk@.len() % 32 == 0 && svals(v@) == encode_packed(chunk@),
            Err(e) => e == CodingError::InvalidLength && chunk@.len() % 32 != 0,
        },
{
    if chunk.len() % 32 != 0 {
        return Err(CodingError::InvalidLength);
    }
    let wtot = chunk.len() / 32;
    proof {
        vstd::arithmetic::div_mod::lemma_fundamental_div_mod(chunk@.len() as int, 32);
    }
    let gtot = (wtot + 62) / 63;
    proof {
        vstd::arithmetic::div_mod::lemma_fundamental_div_mod(wtot as int + 62, 63);
    }
    let mut out: Vec<Scalar> = Vec::new();
    let mut g: usize = 0;
    while g < gtot
        invariant
            chunk@.len() % 32 == 0,
            chunk@.len() <= usize::MAX,
            32 * wtot == chunk@.len(),
            wtot == words_of(chunk@),
            gtot == groups_of(chunk@),
            g <= gtot,
            out@.len() == if g == gtot {
                (wtot + gtot) as int
            } else {
                64 * g
            },
            forall|m: int|
                0 <= m < out@.len() ==> #[trigger] svals(out@)[m] == encode_packed(chunk@)[m],
        decreases gtot - g,
    {
        proof {
            vstd::arithmetic::div_mod::lemma_fundamental_div_mod(wtot as int + 62, 63);
            assert(63 * g <= 63 * (gtot - 1)) by (nonlinear_arith)
                requires
                    g <= gtot - 1,
            ;
        }
        let gsize = if wtot - 63 * g < 63 {
            wtot - 63 * g
        } else {
            63
        };
        let ghost gg = g as int;
        proof {
            assert(gsize == group_size(chunk@, gg));
            assert(1 <= gsize <= 63);
            if g + 1 < gtot {
                assert(63 * (g + 2) <= 63 * gtot) by (nonlinear_arith)
                    requires
                        g + 2 <= gtot,
                ;
                assert(gsize == 63);
            } else {
                assert(gsize == wtot - 63 * g);
            }
        }
        let mut tail: Vec<u8> = Vec::new();
        let mut z: usize = 0;
        while z < 32
            invariant
                z <= 32,
                tail@.len() == z,
                forall|j: int| 0 <= j < z ==> #[trigger] tail@[j] == 0,
            decreases 32 - z,
        {
            tail.push(0u8);
            z += 1;
        }
        proof {
            assert forall|j: int| 0 <= j < 32 implies #[trigger] tail@[j] == tail_byte_upto(
                chunk@,
                gg,
                j,
                0,
            ) by {
                assert((0u8 | (0u8 << 4)) == 0) by (bit_vector);
            }
        }
        let mut p: usize = 0;
        while p < gsize
            invariant
                chunk@.len() % 32 == 0,
                chunk@.len() <= usize::MAX,
                32 * wtot == chunk@.len(),
                wtot == words_of(chunk@),
                gtot == groups_of(chunk@),
                g < gtot,
                gg == g as int,
                gsize == group_size(chunk@, gg),
                1 <= gsize <= 63,
                63 * g + gsize <= wtot,
                p <= gsize,
                out@.len() == 64 * g + p,
                forall|m: int|
                    0 <= m < out@.len() ==> #[trigger] svals(out@)[m] == encode_packed(chunk@)[m],
                tail@.len() == 32,
                forall|j: int|
                    0 <= j < 32 ==> #[trigger] tail@[j] == tail_byte_upto(chunk@, gg, j, p as int),
            decreases gsize - p,
        {
            let widx = 63 * g + p;
            proof {
                assert(32 * widx + 32 <= 32 * wtot) by (nonlinear_arith)
                    requires
                        widx + 1 <= wtot,
                ;
            }
            let mut word: Vec<u8> = Vec::new();
            let mut j: usize = 0;
            while j < 32
                invariant
                    chunk@.len() <= usize::MAX,
                    32 * widx + 32 <= chunk@.len(),
                    j <= 32,
                    word@.len() == j,
                    word@ == chunk@.subrange(32 * widx as int, 32 * widx as int + j),
                decreases 32 - j,
            {
                let byte = *vstd::slice::slice_index_get(chunk, 32 * widx + j);
                word.push(byte);
                proof {
                    assert(chunk@.subrange(32 * widx as int, 32 * widx as int + j + 1)
                        =~= chunk@.subrange(32 * widx as int, 32 * widx as int + j).push(
                        chunk@[32 * widx as int + j],
                    ));
                }
                j += 1;
            }
            let b31 = word[31];
            let hi = b31 >> 4;
            word[31] = b31 & 0x0f;
            proof {
                assert(word@ =~= masked(word_at(chunk@, widx as int)));
                assert(hi == hi_nibble(word_at(chunk@, widx as int)));
                assert((b31 & 0x0f) < 16) by (bit_vector);
                lemma_nibble_fits(word@);
                lemma_small_mod(le_val(word@), group_order());
            }
            let sc = scalar_from_le_bytes(&word);
            let ghost out0 = out@;
            out.push(sc);
            proof {
                let m = 64 * gg + p;
                vstd::arithmetic::div_mod::lemma_fundamental_div_mod_converse(m, 64, gg, p as int);
                assert(encode_packed(chunk@)[m] == le_val(masked(word_at(chunk@, 63 * gg + p)))
                    as int);
                assert forall|x: int| 0 <= x < out@.len() implies #[trigger] svals(out@)[x]
                    == encode_packed(chunk@)[x] by {
                    if x < m {
                        assert(out@[x] == out0[x]);
                        assert(svals(out0)[x] == sval(out0[x]));
                    }
                }
            }
            let ti = p / 2;
            let ghost tail0 = tail@;
            if p % 2 == 0 {
                let tb = tail[ti];
                tail[ti] = tb | hi;
            } else {
                let tb = tail[ti];
                tail[ti] = tb | (hi << 4u8);
            }
            proof {
                let pp = p as int;
                assert forall|j: int| 0 <= j < 32 implies #[trigger] tail@[j] == tail_byte_upto(
                    chunk@,
                    gg,
                    j,
                    pp + 1,
                ) by {
                    let lo0: u8 = if 2 * j < pp {
                        hi_nibble(word_at(chunk@, 63 * gg + 2 * j))
                    } else {
                        0
                    };
                    let hn0: u8 = if 2 * j + 1 < pp {
                        hi_nibble(word_at(chunk@, 63 * gg + 2 * j + 1))
                    } else {
                        0
                    };
                    if j != ti {
                        assert(tail@[j] == tail0[j]);
                        assert(2 * j != pp && 2 * j + 1 != pp);
                    } else {
                        if pp % 2 == 0 {
                            assert(2 * j == pp);
                            assert(tail0[j] == (0u8 | (0u8 << 4)));
                            let h = hi;
                            assert(((0u8 | (0u8 << 4)) | h) == (h | (0u8 << 4))) by (bit_vector);
                        } else {
                            assert(2 * j == pp - 1);
                            assert(tail0[j] == (lo0 | (0u8 << 4)));
                            let h = hi;
                            assert(((lo0 | (0u8 << 4)) | (h << 4)) == (lo0 | (h << 4)))
                                by (bit_vector);
                        }
                    }
                }
            }
            p += 1;
        }
        proof {
            assert(tail@ =~= tail_bytes_of(chunk@, gg));
            let lo31: u8 = if 2 * 31 < gsize {
                hi_nibble(word_at(chunk@, 63 * gg + 2 * 31))
            } else {
                0
            };
            assert(tail@[31] == (lo31 | (0u8 << 4)));
            if 2 * 31 < gsize {
                let w62 = word_at(chunk@, 63 * gg + 62);
                let x = w62[31];
                assert(lo31 == x >> 4);
                assert(((x >> 4) | (0u8 << 4)) < 16) by (bit_vector);
            } else {
                assert((0u8 | (0u8 << 4)) < 16) by (bit_vector);
            }
            assert(tail@[31] < 16);
            lemma_nibble_fits(tail@);
            lemma_small_mod(le_val(tail@), group_order());
        }
        let ts = scalar_from_le_bytes(&tail);
        let ghost out1 = out@;
        out.push(ts);
        proof {
            let m = 64 * gg + gsize;
            vstd::arithmetic::div_mod::lemma_fundamental_div_mod_converse(m, 64, gg,
                gsize as int);
            assert(encode_packed(chunk@)[m] == le_val(tail_bytes_of(chunk@, gg)) as int);
            assert forall|x: int| 0 <= x < out@.len() implies #[trigger] svals(out@)[x]
                == encode_packed(chunk@)[x] by {
                if x < m {
                    assert(out@[x] == out1[x]);
                    assert(svals(out1)[x] == sval(out1[x]));
                }
            }
        }
        g += 1;
    }
    proof {
        assert(out@.len() == wtot + gtot);
        assert(svals(out@) =~= encode_packed(chunk@));
    }
    Ok(out)
}

/// Decodes scalars under the packed scheme: each group of up to 64
/// scalars yields its data scalars' bytes, with the high nibble of each
/// word's last byte restored from the group's tail scalar. Fails
/// exactly when the scalar count leaves a final group of one scalar,
/// which cannot carry both data and tail bits.
#[verifier::rlimit(60)]
pub fn scalars_to_chunk(scalars: &[Scalar]) -> (r: Result<Vec<u8>, CodingError>)
    ensures
        match r {
            Ok(out) => scalars@.len() % 64 != 1 && out@ == decode_packed(svals(scalars@)),
            Err(e) => e == CodingError::MalformedChunk && scalars@.len() % 64 == 1,
        },
{
    let n = scalars.len();
    if n % 64 == 1 {
        return Err(CodingError::MalformedChunk);
    }
    let ghost v = svals(scalars@);
    proof {
        vstd::arithmetic::div_mod::lemma_fundamental_div_mod(n as int, 64);
    }
    proof {
        vstd::arithmetic::div_mod::lemma_div_nonincreasing(n as int, 64);
        vstd::arithmetic::div_mod::lemma_div_pos_is_pos(n as int, 64);
    }
    let gtot = n / 64 + if n % 64 != 0 {
        1usize
    } else {
        0usize
    };
    proof {
        vstd::arithmetic::div_mod::lemma_fundamental_div_mod(n as int + 63, 64);
        if n % 64 == 0 {
            vstd::arithmetic::div_mod::lemma_fundamental_div_mod_converse(n as int + 63, 64,
                n as int / 64, 63);
        } else {
            vstd::arithmetic::div_mod::lemma_fundamental_div_mod_converse(n as int + 63, 64,
                n as int / 64 + 1, (n as int % 64) - 1);
        }
        assert(gtot == dec_groups(v));
    }
    let mut out: Vec<u8> = Vec::new();
    let mut g: usize = 0;
    while g < gtot
        invariant
            n == scalars@.len(),
            n <= usize::MAX,
            n % 64 != 1,
            v == svals(scalars@),
            gtot == dec_groups(v),
            g <= gtot,
            out@.len() == if g == gtot {
                32 * (n - gtot)
            } else {
                2016 * g
            },
            forall|m: int| 0 <= m < out@.len() ==> #[trigger] out@[m] == decode_packed(v)[m],
        decreases gtot - g,
    {
        proof {
            vstd::arithmetic::div_mod::lemma_fundamental_div_mod(n as int + 63, 64);
            vstd::arithmetic::div_mod::lemma_fundamental_div_mod(n as int, 64);
            assert(64 * g <= 64 * (gtot - 1)) by (nonlinear_arith)
                requires
                    g <= gtot - 1,
            ;
        }
        let gsize = if n - 64 * g < 64 {
            n - 64 * g
        } else {
            64
        };
        let ghost gg = g as int;
        proof {
            assert(gsize == dec_group_size(v, gg));
            if g + 1 < gtot {
                assert(64 * (g + 2) <= 64 * gtot) by (nonlinear_arith)
                    requires
                        g + 2 <= gtot,
                ;
                assert(gsize == 64);
            } else {
                assert(gsize == n - 64 * g);
            }
            assert(2 <= gsize <= 64);
        }
        let tailv = scalar_to_le_bytes(vstd::slice::slice_index_get(scalars, 64 * g + gsize - 1));
        proof {
            lemma_sval_in_field(scalars@[64 * gg + gsize - 1]);
            lemma_le_bytes_le_val(tailv@);
            assert(tailv@ == le_bytes(v[64 * gg + gsize - 1] as nat, 32));
        }
        let mut p: usize = 0;
        while p < gsize - 1
            invariant
                n == scalars@.len(),
                n <= usize::MAX,
                v == svals(scalars@),
                gtot == dec_groups(v),
                g < gtot,
                gg == g as int,
                gsize == dec_group_size(v, gg),
                2 <= gsize <= 64,
                64 * g + gsize <= n,
                p <= gsize - 1,
                out@.len() == 2016 * g + 32 * p,
                forall|m: int| 0 <= m < out@.len() ==> #[trigger] out@[m] == decode_packed(v)[m],
                tailv@.len() == 32,
                tailv@ == le_bytes(v[64 * gg + gsize - 1] as nat, 32),
            decreases gsize - 1 - p,
        {
            let data = scalar_to_le_bytes(vstd::slice::slice_index_get(scalars, 64 * g + p));
            proof {
                lemma_sval_in_field(scalars@[64 * gg + p]);
                lemma_le_bytes_le_val(data@);
                assert(data@ == le_bytes(v[64 * gg + p] as nat, 32));
            }
            let ghost pp = p as int;
            let ghost base = 2016 * gg + 32 * pp;
            proof {
                assert(32 * (n - gtot) >= base + 32) by (nonlinear_arith)
                    requires
                        n - gtot >= 63 * gg + gsize - 1,
                        pp + 1 <= gsize - 1,
                        base == 2016 * gg + 32 * pp,
                        gg >= 0,
                        gsize <= 64,
                    ;
            }
            let mut m: usize = 0;
            while m < 32
                invariant
                    n == scalars@.len(),
                    v == svals(scalars@),
                    g < gtot,
                    gg == g as int,
                    gsize == dec_group_size(v, gg),
                    2 <= gsize <= 64,
                    64 * g + gsize <= n,
                    p <= gsize - 2,
                    pp == p as int,
                    base == 2016 * gg + 32 * pp,
                    m <= 32,
                    out@.len() == base + m,
                    forall|x: int| 0 <= x < out@.len() ==> #[trigger] out@[x] == decode_packed(v)[x],
                    tailv@.len() == 32,
                    tailv@ == le_bytes(v[64 * gg + gsize - 1] as nat, 32),
                    data@.len() == 32,
                    data@ == le_bytes(v[64 * gg + pp] as nat, 32),
                decreases 32 - m,
            {
                let byte: u8 = if m < 31 {
                    data[m]
                } else {
                    let nib: u8 = if p % 2 == 0 {
                        tailv[p / 2] & 0x0f
                    } else {
                        (tailv[p / 2] >> 4) & 0x0f
                    };
                    data[31] | (nib << 4u8)
                };
                let ghost out0 = out@;
                out.push(byte);
                proof {
                    let i = base + m;
                    vstd::arithmetic::div_mod::lemma_fundamental_div_mod_converse(i, 2016, gg,
                        32 * pp + m);
                    vstd::arithmetic::div_mod::lemma_fundamental_div_mod_converse(32 * pp + m, 32,
                        pp, m as int);
                    assert(decode_packed(v)[i] == dec_byte(v, gg, pp, m as int));
                    assert(byte == dec_byte(v, gg, pp, m as int));
                    assert forall|x: int| 0 <= x < out@.len() implies #[trigger] out@[x]
                        == decode_packed(v)[x] by {
                        if x < i {
                            assert(out@[x] == out0[x]);
                        }
                    }
                }
                m += 1;
            }
            p += 1;
        }
        g += 1;
        proof {
            if g == gtot {
                assert(out@.len() == 32 * (n - gtot));
            }
        }
    }
    proof {
        assert(out@ =~= decode_packed(v));
    }
    Ok(out)
}

/// Every byte block whose length the packed scheme admits comes back
/// unchanged from the encode–decode round trip.
#[verifier::rlimit(100)]
pub proof fn lemma_roundtrip_packed(b: Seq<u8>)
    requires
        b.len() % 32 == 0,
    ensures
        decode_packed(encode_packed(b)) == b,
{
    let v = encode_packed(b);
    let wtot = words_of(b);
    let gtot = groups_of(b);
    vstd::arithmetic::div_mod::lemma_fundamental_div_mod(b.len() as int, 32);
    vstd::arithmetic::div_mod::lemma_fundamental_div_mod(wtot + 62, 63);
    assert(v.len() == wtot + gtot);
    if wtot == 0 {
        assert(gtot == 0);
        assert(dec_groups(v) == 0);
        assert(decode_packed(v) =~= b);
    } else {
        let wlast = wtot - 63 * (gtot - 1);
        assert(1 <= wlast <= 63) by {
            assert(63 * gtot == wtot + 62 - (wtot + 62) % 63);
        }
        assert(v.len() + 63 == 64 * gtot + wlast);
        vstd::arithmetic::div_mod::lemma_fundamental_div_mod_converse(v.len() as int + 63, 64,
            gtot, wlast);
        assert(dec_groups(v) == gtot);
        assert(decode_packed(v).len() == 32 * wtot);
        assert forall|i: int| 0 <= i < 32 * wtot implies decode_packed(v)[i] == b[i] by {
            let g = i / 2016;
            let o = i % 2016;
            let p = o / 32;
            let m = o % 32;
            vstd::arithmetic::div_mod::lemma_fundamental_div_mod(i, 2016);
            vstd::arithmetic::div_mod::lemma_fundamental_div_mod(o, 32);
            let w = 63 * g + p;
            assert(0 <= p < 63 && 0 <= m < 32) by {
                assert(o < 2016);
            }
            assert(i == 2016 * g + 32 * p + m);
            assert(w < wtot) by (nonlinear_arith)
                requires
                    i == 2016 * g + 32 * p + m,
                    w == 63 * g + p,
                    0 <= m < 32,
                    0 <= p,
                    0 <= g,
                    i < 32 * wtot,
            ;
            assert(g < gtot) by (nonlinear_arith)
                requires
                    w < wtot,
                    w == 63 * g + p,
                    0 <= p,
                    wtot == 63 * (gtot - 1) + wlast,
                    wlast <= 63,
            ;
            let gs = group_size(b, g);
            assert(p < gs);
            assert(gs <= 63);
            // the decode group holds the data words and the tail scalar
            if g == gtot - 1 {
                assert(v.len() - 64 * g == wlast + 1) by (nonlinear_arith)
                    requires
                        v.len() == wtot + gtot,
                        wtot == 63 * (gtot - 1) + wlast,
                        g == gtot - 1,
                ;
                assert(gs == wlast);
                assert(dec_group_size(v, g) == gs + 1);
            } else {
                assert(v.len() - 64 * g >= 65) by (nonlinear_arith)
                    requires
                        v.len() == wtot + gtot,
                        wtot == 63 * (gtot - 1) + wlast,
                        1 <= wlast,
                        0 <= g <= gtot - 2,
                ;
                assert(wtot - 63 * g >= 64) by (nonlinear_arith)
                    requires
                        wtot == 63 * (gtot - 1) + wlast,
                        1 <= wlast,
                        0 <= g <= gtot - 2,
                ;
                assert(gs == 63);
                assert(dec_group_size(v, g) == 64);
            }
            // the data scalar and the tail scalar of the group
            let sidx = 64 * g + p;
            vstd::arithmetic::div_mod::lemma_fundamental_div_mod_converse(sidx, 64, g, p);
            assert(sidx < v.len()) by (nonlinear_arith)
                requires
                    dec_group_size(v, g) == gs + 1,
                    dec_group_size(v, g) <= v.len() - 64 * g,
                    p < gs,
                    sidx == 64 * g + p,
            ;
            assert(v[sidx] == le_val(masked(word_at(b, w))) as int);
            let tidx = 64 * g + gs;
            vstd::arithmetic::div_mod::lemma_fundamental_div_mod_converse(tidx, 64, g, gs);
            assert(v[tidx] == le_val(tail_bytes_of(b, g)) as int);
            // recover the word bytes and the tail bytes
            assert(32 * w + 32 <= 32 * wtot) by (nonlinear_arith)
                requires
                    w + 1 <= wtot,
            ;
            let word = word_at(b, w);
            assert(word.len() == 32);
            let mw = masked(word);
            assert(mw.len() == 32);
            lemma_le_bytes_le_val(mw);
            let tb = tail_bytes_of(b, g);
            lemma_le_bytes_le_val(tb);
            assert(le_bytes(v[sidx] as nat, 32) == mw);
            assert(le_bytes(v[tidx] as nat, 32) == tb);
            assert(decode_packed(v)[i] == dec_byte(v, g, p, m));
            assert(b[i] == word[m]);
            if m < 31 {
                assert(dec_byte(v, g, p, m) == mw[m]);
                assert(mw[m] == word[m]);
            } else {
                let x = word[31];
                assert(mw[31] == (x & 0x0f));
                let nib: u8 = if p % 2 == 0 {
                    tb[p / 2] & 0x0f
                } else {
                    (tb[p / 2] >> 4) & 0x0f
                };
                assert(dec_byte(v, g, p, m) == (mw[31] | (nib << 4)));
                // the tail byte holding this word's nibble
                let j = p / 2;
                assert(tb[j] == tail_byte(b, g, j));
                if p % 2 == 0 {
                    assert(2 * j == p);
                    assert(2 * j < gs);
                    let lo = hi_nibble(word_at(b, 63 * g + 2 * j));
                    assert(lo == x >> 4);
                    if 2 * j + 1 < gs {
                        let z = word_at(b, 63 * g + 2 * j + 1)[31];
                        assert(tb[j] == ((x >> 4) | ((z >> 4) << 4)));
                        assert((((x >> 4) | ((z >> 4) << 4)) & 0x0f) == (x >> 4)) by (bit_vector);
                    } else {
                        assert(tb[j] == ((x >> 4) | (0u8 << 4)));
                        assert((((x >> 4) | (0u8 << 4)) & 0x0f) == (x >> 4)) by (bit_vector);
                    }
                    assert(nib == (x >> 4));
                } else {
                    assert(2 * j + 1 == p);
                    assert(2 * j < gs && 2 * j + 1 < gs);
                    let y = word_at(b, 63 * g + 2 * j)[31];
                    assert(tb[j] == ((y >> 4) | ((x >> 4) << 4)));
                    assert(((((y >> 4) | ((x >> 4) << 4))) >> 4) & 0x0f == (x >> 4)) by (bit_vector);
                    assert(nib == (x >> 4));
                }
                assert(((x & 0x0f) | ((x >> 4) << 4)) == x) by (bit_vector);
            }
        }
        assert(decode_packed(v) =~= b);
    }
}

/// The commitment homomorphism: committing to the entrywise combination
/// `al*u + be*v` gives exactly `al` times the commitment of `u` plus
/// `be` times the commitment of `v`, written over the discrete
/// logarithms of the committed points.
pub proof fn lemma_commit_homomorphism(al: int, be: int, u: Seq<int>, v: Seq<int>, gens: Seq<int>)
    requires
        u.len() == v.len(),
    ensures
        dot(vadd(vscale(al, u), vscale(be, v)), gens) == al * dot(u, gens) + be * dot(v, gens),
{
    lemma_dot_add_left(vscale(al, u), vscale(be, v), gens);
    lemma_dot_scale_left(al, u, gens);
    lemma_dot_scale_left(be, v, gens);
}

/// Every residue the packed encoder produces is canonical: the data
/// scalars and the tail scalars all carry at most 252 bits.
pub proof fn lemma_encode_packed_in_field(b: Seq<u8>)
    requires
        b.len() % 32 == 0,
    ensures
        vec_in_field(encode_packed(b)),
{
    let v = encode_packed(b);
    let wtot = words_of(b);
    vstd::arithmetic::div_mod::lemma_fundamental_div_mod(b.len() as int, 32);
    assert forall|s: int| 0 <= s < v.len() implies in_field(#[trigger] v[s]) by {
        let g = s / 64;
        let p = s % 64;
        vstd::arithmetic::div_mod::lemma_fundamental_div_mod(s, 64);
        if p < group_size(b, g) {
            let w = word_at(b, 63 * g + p);
            assert(0 <= 63 * g + p < wtot) by (nonlinear_arith)
                requires
                    s == 64 * g + p,
                    0 <= p < group_size(b, g),
                    group_size(b, g) <= wtot - 63 * g,
                    g >= 0,
            ;
            assert(32 * (63 * g + p) + 32 <= 32 * wtot) by (nonlinear_arith)
                requires
                    63 * g + p + 1 <= wtot,
            ;
            assert(w.len() == 32);
            assert(masked(w).len() == 32);
            let x = w[31];
            assert((x & 0x0f) < 16) by (bit_vector);
            lemma_nibble_fits(masked(w));
        } else {
            let tb = tail_bytes_of(b, g);
            assert(tb.len() == 32);
            let lo31: u8 = if 2 * 31 < group_size(b, g) {
                hi_nibble(word_at(b, 63 * g + 2 * 31))
            } else {
                0
            };
            assert(tb[31] == (lo31 | (0u8 << 4)));
            if 2 * 31 < group_size(b, g) {
                let x = word_at(b, 63 * g + 62)[31];
                assert(lo31 == x >> 4);
                assert(((x >> 4) | (0u8 << 4)) < 16) by (bit_vector);
            } else {
                assert((0u8 | (0u8 << 4)) < 16) by (bit_vector);
            }
            lemma_nibble_fits(tb);
        }
    }
}

} // verus!
