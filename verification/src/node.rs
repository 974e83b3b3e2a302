//! The receive/send/decode state machine.
//!
//! A [`Node`] accumulates verified chunks of one block. Every incoming
//! [`Message`] is checked against the session's commitments before its
//! coefficient row is offered to the row reducer; outgoing messages are
//! fresh random combinations of the held chunks, and once the system has
//! full rank the original block is reconstructed. The structural
//! invariant ties everything together: for every accepted chunk, its
//! coefficient row applied to the commitments matches the commitment of
//! its data, so every message a node sends verifies in turn.

use vstd::prelude::*;
use curve25519_dalek::ristretto::RistrettoPoint;
use curve25519_dalek::scalar::Scalar;
use sha2::{Digest, Sha256};
use crate::field::{sval, svals, smat, cong, in_field, residue, scalar_zero, scalar_from_u8,
    scalar_add, scalar_mul, lemma_sval_in_field, lemma_residue_unique, lemma_cong_sym,
    lemma_cong_trans, lemma_cong_add};
use crate::linalg::{dot, col, unit, identity, pivot, row_times, wsum, mat_mul, mat_cong, u8vals,
    lemma_dot_unit, lemma_dot_prefix, lemma_dot_take_succ, lemma_dot_cong_left,
    lemma_dot_cong_right, lemma_row_times_dot, lemma_wsum_cong, lemma_wsum_as_dot};
use crate::blocks::{Committer, pval, pvals, msm, point_eq, random_bytes, encode_packed,
    decode_packed, chunk_to_scalars, scalars_to_chunk, block_to_chunks};
use crate::matrix::{Eschelon, in_scaled_span, in_span};
use crate::CodingError;

verus! {

/// The reasons a message is turned away.
#[derive(Clone, Copy, Debug, PartialEq, Eq, Structural)]
pub enum ReceiveError {
    /// The message's commitment vector differs from the one this node
    /// already holds: the sender is on a different block.
    ExistingCommitmentsMismatch,
    /// The message's data length differs from the chunks already held.
    ExistingChunksMismatch,
    /// The homomorphic check failed, or the message is malformed.
    InvalidMessage,
    /// The coefficient row lies in the span of the rows already
    /// accepted; not fatal, the message simply carries no news.
    LinearlyDependentChunk,
}

/// The canonical binary encoding of a vector of group points, as a
/// function of their discrete logarithms.
pub uninterp spec fn point_seq_encoding(points: Seq<int>) -> Seq<u8>;

/// Relies on bincode's `serialize`: the canonical binary encoding of a
/// point vector. Every point has a single canonical 32-byte wire form
/// and is determined by its discrete logarithm, so the output is a
/// function of the modelled logarithms alone. Serializing a point
/// vector into memory cannot fail.
#[verifier::external_body]
fn serialize_points(points: &Vec<RistrettoPoint>) -> (r: Vec<u8>)
    ensures
        r@ == point_seq_encoding(pvals(points@)),
{
    bincode::serialize(points).unwrap()
}

/// The SHA-256 digest of a byte string.
pub uninterp spec fn sha256_of(bytes: Seq<u8>) -> Seq<u8>;

/// Relies on sha2's `Sha256`: the 32-byte digest, a function of the
/// input bytes alone.
#[verifier::external_body]
fn sha256(bytes: &Vec<u8>) -> (r: [u8; 32])
    ensures
        r@ == sha256_of(bytes@),
{
    let mut hasher = Sha256::new();
    hasher.update(bytes.as_slice());
    hasher.finalize().into()
}

/// Copies a vector of group points.
fn copy_points(v: &Vec<RistrettoPoint>) -> (r: Vec<RistrettoPoint>)
    ensures
        r@ == v@,
{
    let mut r: Vec<RistrettoPoint> = Vec::new();
    let mut i: usize = 0;
    while i < v.len()
        invariant
            i <= v@.len(),
            r@ == v@.take(i as int),
        decreases v@.len() - i,
    {
        r.push(v[i]);
        proof {
            assert(v@.take(i + 1) =~= v@.take(i as int).push(v@[i as int]));
        }
        i += 1;
    }
    proof {
        assert(v@.take(v@.len() as int) =~= v@);
    }
    r
}

/// The transmitted payload: a data vector and the coefficients that
/// express it in the source basis.
#[derive(Clone, Debug)]
pub struct Chunk {
    data: Vec<Scalar>,
    coefficients: Vec<Scalar>,
}

/// The wire object: a combined chunk together with the block's
/// commitment vector.
#[derive(Clone, Debug)]
pub struct Message {
    chunk: Chunk,
    commitments: Vec<RistrettoPoint>,
}

impl Chunk {
    /// The residues of the data vector.
    pub closed spec fn dvals(self) -> Seq<int> {
        svals(self.data@)
    }

    /// The residues of the coefficient vector.
    pub closed spec fn cvals(self) -> Seq<int> {
        svals(self.coefficients@)
    }

    /// Builds a payload from its two scalar vectors.
    pub fn new(data: Vec<Scalar>, coefficients: Vec<Scalar>) -> (r: Chunk)
        ensures
            r.dvals() == svals(data@),
            r.cvals() == svals(coefficients@),
    {
        Chunk { data, coefficients }
    }

    /// The data vector.
    pub fn data(&self) -> (r: &Vec<Scalar>)
        ensures
            svals(r@) == self.dvals(),
    {
        &self.data
    }

    /// The coefficient vector.
    pub fn coefficients(&self) -> (r: &Vec<Scalar>)
        ensures
            svals(r@) == self.cvals(),
    {
        &self.coefficients
    }
}

impl Message {
    /// The residues of the data vector.
    pub closed spec fn dvals(self) -> Seq<int> {
        svals(self.chunk.data@)
    }

    /// The residues of the coefficient vector.
    pub closed spec fn cvals(self) -> Seq<int> {
        svals(self.chunk.coefficients@)
    }

    /// The logarithms of the commitment vector.
    pub closed spec fn commvals(self) -> Seq<int> {
        pvals(self.commitments@)
    }

    /// The validity invariant: the coefficients applied to the
    /// commitments give the commitment of the data.
    pub open spec fn valid(self, gens: Seq<int>) -> bool {
        &&& self.cvals().len() <= self.commvals().len()
        &&& self.dvals().len() <= gens.len()
        &&& cong(dot(self.cvals(), self.commvals()), dot(self.dvals(), gens))
    }

    /// Wraps a payload and a commitment vector as a message.
    pub fn new(chunk: Chunk, commitments: Vec<RistrettoPoint>) -> (r: Message)
        ensures
            r.dvals() == chunk.dvals(),
            r.cvals() == chunk.cvals(),
            r.commvals() == pvals(commitments@),
    {
        Message { chunk, commitments }
    }

    /// The carried payload.
    pub fn chunk(&self) -> (r: &Chunk)
        ensures
            r.dvals() == self.dvals(),
            r.cvals() == self.cvals(),
    {
        &self.chunk
    }

    /// The carried commitment vector.
    pub fn commitments(&self) -> (r: &Vec<RistrettoPoint>)
        ensures
            pvals(r@) == self.commvals(),
    {
        &self.commitments
    }

    /// The coefficient vector.
    pub fn coefficients(&self) -> (r: &Vec<Scalar>)
        ensures
            svals(r@) == self.cvals(),
    {
        &self.chunk.coefficients
    }

    /// The homomorphic check: the coefficients applied to the carried
    /// commitments must equal the committer's commitment of the data.
    /// Succeeds exactly on valid messages; a data vector longer than
    /// the committer reports `InputTooLong`, everything else that fails
    /// is `InvalidMessage`.
    pub fn verify(&self, committer: &Committer) -> (r: Result<(), CodingError>)
        ensures
            match r {
                Ok(()) => self.valid(committer.gens()),
                Err(CodingError::InputTooLong) => self.cvals().len() <= self.commvals().len()
                    && self.dvals().len() > committer.gens().len(),
                Err(CodingError::InvalidMessage) => self.cvals().len() > self.commvals().len() || (
                self.cvals().len() <= self.commvals().len() && self.dvals().len()
                    <= committer.gens().len() && !cong(
                    dot(self.cvals(), self.commvals()),
                    dot(self.dvals(), committer.gens()),
                )),
                Err(_) => false,
            },
    {
        if self.chunk.coefficients.len() > self.commitments.len() {
            return Err(CodingError::InvalidMessage);
        }
        let lhs = msm(&self.chunk.coefficients, &self.commitments);
        let rhs = match committer.commit(&self.chunk.data) {
            Ok(p) => p,
            Err(_) => {
                return Err(CodingError::InputTooLong);
            },
        };
        if point_eq(&lhs, &rhs) {
            proof {
                crate::blocks::lemma_pval_in_field(lhs);
                crate::blocks::lemma_pval_in_field(rhs);
                lemma_cong_sym(pval(lhs), dot(self.cvals(), self.commvals()));
                lemma_cong_trans(
                    dot(self.cvals(), self.commvals()),
                    pval(lhs),
                    dot(self.dvals(), committer.gens()),
                );
            }
            Ok(())
        } else {
            proof {
                if cong(dot(self.cvals(), self.commvals()), dot(self.dvals(), committer.gens())) {
                    crate::blocks::lemma_pval_in_field(lhs);
                    crate::blocks::lemma_pval_in_field(rhs);
                    lemma_cong_trans(
                        pval(lhs),
                        dot(self.cvals(), self.commvals()),
                        dot(self.dvals(), committer.gens()),
                    );
                    lemma_cong_sym(pval(rhs), dot(self.dvals(), committer.gens()));
                    lemma_cong_trans(pval(lhs), dot(self.dvals(), committer.gens()), pval(rhs));
                    crate::field::lemma_cong_in_field(pval(lhs), pval(rhs));
                }
            }
            Err(CodingError::InvalidMessage)
        }
    }

    /// The SHA-256 digest of the canonical encoding of the commitment
    /// vector: the block identity this message belongs to.
    pub fn commitments_hash(&self) -> (r: [u8; 32])
        ensures
            r@ == sha256_of(point_seq_encoding(self.commvals())),
    {
        let serialized = serialize_points(&self.commitments);
        sha256(&serialized)
    }
}

/// The receiving-side state: the accepted chunks, the session's
/// commitment vector once it is pinned, the row reducer, and a handle
/// on the shared committer.
pub struct Node<'a> {
    chunks: Vec<Vec<Scalar>>,
    commitments: Vec<RistrettoPoint>,
    eschelon: Eschelon,
    committer: &'a Committer,
}

impl<'a> Node<'a> {
    /// The dimension `K` of the system: the number of source chunks.
    pub closed spec fn size(self) -> nat {
        self.eschelon.size()
    }

    /// The number of accepted chunks.
    pub closed spec fn count(self) -> nat {
        self.eschelon.rows()
    }

    /// The residues of the held chunks, in receive order.
    pub closed spec fn chunk_vals(self) -> Seq<Seq<int>> {
        smat(self.chunks@)
    }

    /// The logarithms of the pinned commitment vector.
    pub closed spec fn commvals(self) -> Seq<int> {
        pvals(self.commitments@)
    }

    /// The accepted coefficient rows.
    pub closed spec fn coeff_rows(self) -> Seq<Seq<int>> {
        self.eschelon.coeffs()
    }

    /// The row-reduced form of the accepted coefficient rows.
    pub closed spec fn reduced(self) -> Seq<Seq<int>> {
        self.eschelon.ech()
    }

    /// The committer's generators.
    pub closed spec fn gens(self) -> Seq<int> {
        self.committer.gens()
    }

    /// The structural invariant: the reducer is well formed and mirrors
    /// the chunk list; the commitment vector is empty until the first
    /// accepted chunk pins it at length `K`; all chunks have one length,
    /// short enough to commit to; and each accepted coefficient row
    /// applied to the commitments matches the commitment of its chunk.
    pub closed spec fn wf(self) -> bool {
        &&& self.eschelon.wf()
        &&& self.chunks@.len() == self.count()
        &&& (self.commvals().len() == 0 || self.commvals().len() == self.size())
        &&& (self.count() > 0 ==> self.commvals().len() == self.size())
        &&& forall|i: int|
            0 <= i < self.count() ==> (#[trigger] self.chunk_vals()[i]).len()
                == self.chunk_vals()[0].len()
        &&& (self.count() > 0 ==> self.chunk_vals()[0].len() <= self.gens().len())
        &&& forall|i: int|
            0 <= i < self.count() ==> cong(
                #[trigger] dot(self.coeff_rows()[i], self.commvals()),
                dot(self.chunk_vals()[i], self.gens()),
            )
    }

    /// The structural facts a well-formed node guarantees: one chunk
    /// and one accepted coefficient row per accepted message, the rows
    /// of the session's width, the chunks of one common length that the
    /// committer can commit to, and the commitment vector empty until
    /// the first accepted message pins it at the session's width.
    pub proof fn lemma_shape(self)
        requires
            self.wf(),
        ensures
            self.chunk_vals().len() == self.count(),
            self.coeff_rows().len() == self.count(),
            self.reduced().len() == self.count(),
            self.count() <= self.size(),
            forall|i: int|
                0 <= i < self.count() ==> (#[trigger] self.coeff_rows()[i]).len() == self.size(),
            forall|i: int|
                0 <= i < self.count() ==> (#[trigger] self.chunk_vals()[i]).len()
                    == self.chunk_vals()[0].len(),
            self.count() > 0 ==> self.chunk_vals()[0].len() <= self.gens().len(),
            self.commvals().len() == 0 || self.commvals().len() == self.size(),
            self.count() > 0 ==> self.commvals().len() == self.size(),
    {
        self.eschelon.lemma_shape();
    }

    /// An empty receiver for a block of `num_chunks` source chunks.
    pub fn new(committer: &'a Committer, num_chunks: usize) -> (r: Node<'a>)
        ensures
            r.wf(),
            r.size() == num_chunks,
            r.count() == 0,
            r.chunk_vals() == Seq::<Seq<int>>::empty(),
            r.coeff_rows() == Seq::<Seq<int>>::empty(),
            r.commvals() == Seq::<int>::empty(),
            r.gens() == committer.gens(),
    {
        let r = Node {
            chunks: Vec::new(),
            commitments: Vec::new(),
            eschelon: Eschelon::new(num_chunks),
            committer,
        };
        proof {
            assert(r.chunk_vals() =~= Seq::<Seq<int>>::empty());
            assert(r.commvals() =~= Seq::<int>::empty());
        }
        r
    }

    /// The held chunks.
    pub fn chunks(&self) -> (r: &Vec<Vec<Scalar>>)
        ensures
            smat(r@) == self.chunk_vals(),
    {
        &self.chunks
    }

    /// The pinned commitment vector.
    pub fn commitments(&self) -> (r: &Vec<RistrettoPoint>)
        ensures
            pvals(r@) == self.commvals(),
    {
        &self.commitments
    }

    /// Whether `K` independent chunks have been accepted.
    pub fn is_full(&self) -> (r: bool)
        ensures
            r == (self.count() == self.size()),
    {
        self.eschelon.is_full()
    }
}

impl<'a> Node<'a> {
    /// A source node: the block is split into `num_chunks` chunks, each
    /// encoded under the packed scheme and committed to, and the
    /// reducer starts as the full identity system. Succeeds exactly
    /// when the block splits evenly, the chunk size fits the packed
    /// scheme, and the encoded chunks are short enough to commit to.
    pub fn new_source(committer: &'a Committer, block: &[u8], num_chunks: usize) -> (r: Result<
        Node<'a>,
        CodingError,
    >)
        requires
            num_chunks > 0,
            block@.len() > 0,
        ensures
            ({
                let csize = block@.len() as int / num_chunks as int;
                let divisible = block@.len() % (num_chunks as nat) == 0;
                match r {
                    Ok(node) => {
                        &&& divisible
                        &&& csize % 32 == 0
                        &&& node.wf()
                        &&& node.size() == num_chunks
                        &&& node.count() == num_chunks
                        &&& node.chunk_vals().len() == num_chunks
                        &&& node.commvals().len() == num_chunks
                        &&& node.gens() == committer.gens()
                        &&& node.coeff_rows() == identity(num_chunks as nat)
                        &&& forall|i: int|
                            0 <= i < num_chunks ==> #[trigger] node.chunk_vals()[i]
                                == encode_packed(block@.subrange(i * csize, (i + 1) * csize))
                        &&& forall|i: int|
                            0 <= i < num_chunks ==> cong(
                                #[trigger] node.commvals()[i],
                                dot(node.chunk_vals()[i], committer.gens()),
                            )
                    },
                    Err(CodingError::InvalidLength) => !divisible || csize % 32 != 0,
                    Err(CodingError::InputTooLong) => divisible && csize % 32 == 0
                        && encode_packed(block@.subrange(0, csize)).len()
                        > committer.gens().len(),
                    Err(_) => false,
                }
            }),
    {
        let parts = match block_to_chunks(block, num_chunks) {
            Ok(p) => p,
            Err(e) => {
                return Err(e);
            },
        };
        let ghost csize = block@.len() as int / num_chunks as int;
        proof {
            assert((parts@[0])@ == block@.subrange(0, csize));
            assert((parts@[0])@.len() == csize);
        }
        let mut chunks: Vec<Vec<Scalar>> = Vec::new();
        let mut commitments: Vec<RistrettoPoint> = Vec::new();
        let mut i: usize = 0;
        while i < num_chunks
            invariant
                num_chunks > 0,
                block@.len() % (num_chunks as nat) == 0,
                csize == block@.len() as int / num_chunks as int,
                csize >= 0,
                parts@.len() == num_chunks,
                forall|m: int|
                    0 <= m < num_chunks ==> (#[trigger] parts@[m])@ == block@.subrange(
                        m * csize,
                        (m + 1) * csize,
                    ),
                i <= num_chunks,
                chunks@.len() == i,
                commitments@.len() == i,
                i > 0 ==> csize % 32 == 0,
                forall|m: int|
                    0 <= m < i ==> #[trigger] smat(chunks@)[m] == encode_packed(
                        block@.subrange(m * csize, (m + 1) * csize),
                    ),
                forall|m: int|
                    0 <= m < i ==> (#[trigger] smat(chunks@)[m]).len() <= committer.gens().len(),
                forall|m: int|
                    0 <= m < i ==> cong(
                        #[trigger] pvals(commitments@)[m],
                        dot(smat(chunks@)[m], committer.gens()),
                    ),
            decreases num_chunks - i,
        {
            let part = parts[i];
            let ghost ii = i as int;
            proof {
                assert(part@ == block@.subrange(ii * csize, (ii + 1) * csize));
                assert(ii * csize >= 0 && (ii + 1) * csize - ii * csize == csize && (ii + 1)
                    * csize <= (num_chunks as int) * csize) by (nonlinear_arith)
                    requires
                        0 <= ii < num_chunks,
                        csize >= 0,
                ;
                vstd::arithmetic::div_mod::lemma_fundamental_div_mod(block@.len() as int,
                    num_chunks as int);
                assert((num_chunks as int) * csize == block@.len());
                assert(part@.len() == csize);
                assert(block@.subrange(0, csize).len() == csize);
            }
            let scal = match chunk_to_scalars(part) {
                Ok(sc) => sc,
                Err(e) => {
                    return Err(e);
                },
            };
            let c = match committer.commit(&scal) {
                Ok(c) => c,
                Err(e) => {
                    proof {
                        let sub0 = block@.subrange(0, csize);
                        assert(sub0.len() == csize);
                        assert(encode_packed(sub0).len() == encode_packed(part@).len());
                    }
                    return Err(e);
                },
            };
            let ghost ch0 = chunks@;
            let ghost cm0 = commitments@;
            chunks.push(scal);
            commitments.push(c);
            proof {
                assert forall|m: int| 0 <= m < i + 1 implies #[trigger] smat(chunks@)[m]
                    == encode_packed(block@.subrange(m * csize, (m + 1) * csize)) by {
                    if m < ii {
                        assert(chunks@[m] == ch0[m]);
                        assert(smat(ch0)[m] == encode_packed(
                            block@.subrange(m * csize, (m + 1) * csize),
                        ));
                    } else {
                        assert(smat(chunks@)[m] == svals(scal@));
                    }
                }
                assert forall|m: int| 0 <= m < i + 1 implies (#[trigger] smat(chunks@)[m]).len()
                    <= committer.gens().len() by {
                    if m < ii {
                        assert(chunks@[m] == ch0[m]);
                        assert(smat(ch0)[m].len() <= committer.gens().len());
                    }
                }
                assert forall|m: int| 0 <= m < i + 1 implies cong(
                    #[trigger] pvals(commitments@)[m],
                    dot(smat(chunks@)[m], committer.gens()),
                ) by {
                    if m < ii {
                        assert(commitments@[m] == cm0[m]);
                        assert(chunks@[m] == ch0[m]);
                        assert(pvals(cm0)[m] == pval(cm0[m]));
                        assert(cong(pvals(cm0)[m], dot(smat(ch0)[m], committer.gens())));
                    } else {
                        assert(pvals(commitments@)[m] == pval(c));
                        assert(smat(chunks@)[m] == svals(scal@));
                    }
                }
            }
            i += 1;
        }
        let node = Node {
            chunks,
            commitments,
            eschelon: Eschelon::new_identity(num_chunks),
            committer,
        };
        proof {
            let kk = num_chunks as nat;
            assert forall|m: int| 0 <= m < kk implies (#[trigger] node.chunk_vals()[m]).len()
                == node.chunk_vals()[0].len() by {
                assert(node.chunk_vals()[m] == encode_packed(
                    block@.subrange(m * csize, (m + 1) * csize),
                ));
                assert(node.chunk_vals()[0] == encode_packed(block@.subrange(0, csize)));
                assert(m * csize >= 0 && (m + 1) * csize - m * csize == csize && (m + 1) * csize
                    <= (num_chunks as int) * csize) by (nonlinear_arith)
                    requires
                        0 <= m < num_chunks,
                        csize >= 0,
                ;
                vstd::arithmetic::div_mod::lemma_fundamental_div_mod(block@.len() as int,
                    num_chunks as int);
                assert((num_chunks as int) * csize == block@.len());
                assert(block@.subrange(m * csize, (m + 1) * csize).len() == csize);
                assert(block@.subrange(0, csize).len() == csize);
            }
            assert forall|m: int| 0 <= m < kk implies cong(
                #[trigger] dot(node.coeff_rows()[m], node.commvals()),
                dot(node.chunk_vals()[m], node.gens()),
            ) by {
                assert(node.coeff_rows()[m] == identity(kk)[m]);
                assert(node.coeff_rows()[m] == unit(kk, m));
                assert(node.commvals().len() == kk);
                lemma_dot_unit(kk, m, node.commvals());
                assert(cong(node.commvals()[m], dot(node.chunk_vals()[m], node.gens())));
            }
        }
        Ok(node)
    }

    /// The strict receive pipeline, failing fast on the first check
    /// that does not hold: the commitments must match any already
    /// pinned, the data length must match any chunks already held, the
    /// homomorphic check must pass, the message must fit the session's
    /// shape, and the coefficient row must be accepted by the row
    /// reducer. Each error names exactly the first failing check, and
    /// on success all checks held: the chunk is appended and the
    /// message's commitment vector is the node's, pinned on a first
    /// success.
    #[verifier::rlimit(60)]
    pub fn receive(&mut self, message: Message) -> (r: Result<(), ReceiveError>)
        requires
            old(self).wf(),
        ensures
            final(self).wf(),
            final(self).size() == old(self).size(),
            final(self).gens() == old(self).gens(),
            ({
                let commit_ok = old(self).commvals().len() == 0 || message.commvals() == old(
                    self,
                ).commvals();
                let chunk_ok = old(self).count() == 0 || message.dvals().len() == old(
                    self,
                ).chunk_vals()[0].len();
                let is_valid = message.valid(old(self).gens());
                let shape_ok = message.cvals().len() == old(self).size() && message.commvals().len()
                    == old(self).size();
                match r {
                    Ok(()) => {
                        &&& commit_ok && chunk_ok && is_valid && shape_ok
                        &&& old(self).count() < old(self).size()
                        &&& pivot(message.cvals()) < old(self).size()
                        &&& !in_span(message.cvals(), old(self).reduced())
                        &&& (old(self).count() == 0 ==> final(self).reduced() == seq![
                            message.cvals(),
                        ])
                        &&& final(self).count() == old(self).count() + 1
                        &&& final(self).chunk_vals() == old(self).chunk_vals().push(
                            message.dvals(),
                        )
                        &&& final(self).coeff_rows() == old(self).coeff_rows().push(
                            message.cvals(),
                        )
                        &&& final(self).commvals() == message.commvals()
                    },
                    Err(ReceiveError::ExistingCommitmentsMismatch) => *final(self) == *old(self)
                        && !commit_ok,
                    Err(ReceiveError::ExistingChunksMismatch) => *final(self) == *old(self)
                        && commit_ok && !chunk_ok,
                    Err(ReceiveError::InvalidMessage) => *final(self) == *old(self) && commit_ok
                        && chunk_ok && (!is_valid || !shape_ok),
                    Err(ReceiveError::LinearlyDependentChunk) => *final(self) == *old(self)
                        && commit_ok && chunk_ok && is_valid && shape_ok && (old(self).count()
                        == old(self).size() || in_scaled_span(
                        message.cvals(),
                        old(self).coeff_rows(),
                    )),
                }
            }),
    {
        if self.commitments.len() > 0 {
            if self.commitments.len() != message.commitments.len() {
                proof {
                    assert(self.commvals().len() != message.commvals().len());
                }
                return Err(ReceiveError::ExistingCommitmentsMismatch);
            }
            let n = self.commitments.len();
            let mut i: usize = 0;
            while i < n
                invariant
                    *self == *old(self),
                    old(self).wf(),
                    n == self.commitments@.len(),
                    n == message.commitments@.len(),
                    i <= n,
                    forall|m: int|
                        0 <= m < i ==> #[trigger] pvals(self.commitments@)[m] == pvals(
                            message.commitments@,
                        )[m],
                decreases n - i,
            {
                if !point_eq(&self.commitments[i], &message.commitments[i]) {
                    proof {
                        assert(self.commvals()[i as int] != message.commvals()[i as int]);
                    }
                    return Err(ReceiveError::ExistingCommitmentsMismatch);
                }
                i += 1;
            }
            proof {
                assert(self.commvals() =~= message.commvals());
            }
        }
        if self.chunks.len() > 0 {
            proof {
                assert(self.chunk_vals()[0] == svals(self.chunks@[0]@));
            }
            if self.chunks[0].len() != message.chunk.data.len() {
                return Err(ReceiveError::ExistingChunksMismatch);
            }
        }
        match message.verify(self.committer) {
            Ok(()) => {},
            Err(_) => {
                return Err(ReceiveError::InvalidMessage);
            },
        }
        if message.chunk.coefficients.len() != self.eschelon.dim() {
            return Err(ReceiveError::InvalidMessage);
        }
        if message.commitments.len() != self.eschelon.dim() {
            return Err(ReceiveError::InvalidMessage);
        }
        let Message { chunk, commitments } = message;
        let Chunk { data, coefficients } = chunk;
        let ghost cv = svals(coefficients@);
        let ghost dv = svals(data@);
        let accepted = self.eschelon.add_row(coefficients);
        if !accepted {
            proof {
                old(self).eschelon.lemma_shape();
                assert(*self == *old(self));
            }
            return Err(ReceiveError::LinearlyDependentChunk);
        }
        let ghost pre = *self;
        self.chunks.push(data);
        if self.commitments.len() == 0 {
            self.commitments = commitments;
        }
        proof {
            let s = *self;
            let k = s.size();
            assert(s.eschelon == pre.eschelon);
            old(self).eschelon.lemma_shape();
            assert(old(self).coeff_rows().len() == old(self).count());
            assert(old(self).chunk_vals().len() == old(self).count());
            assert(s.coeff_rows() == old(self).coeff_rows().push(cv));
            assert(s.chunk_vals() =~= old(self).chunk_vals().push(dv));
            assert(s.commvals().len() == k);
            if old(self).count() == 0 {
                assert(s.chunk_vals()[0] == dv);
            } else {
                assert(s.chunk_vals()[0] == old(self).chunk_vals()[0]);
            }
            assert forall|m: int| 0 <= m < s.count() implies (#[trigger] s.chunk_vals()[m]).len()
                == s.chunk_vals()[0].len() by {
                if m < old(self).count() {
                    assert(s.chunk_vals()[m] == old(self).chunk_vals()[m]);
                }
                if old(self).count() > 0 {
                    assert(s.chunk_vals()[0] == old(self).chunk_vals()[0]);
                }
            }
            assert forall|m: int| 0 <= m < s.count() implies cong(
                #[trigger] dot(s.coeff_rows()[m], s.commvals()),
                dot(s.chunk_vals()[m], s.gens()),
            ) by {
                if m < old(self).count() {
                    assert(s.coeff_rows()[m] == old(self).coeff_rows()[m]);
                    assert(s.chunk_vals()[m] == old(self).chunk_vals()[m]);
                    assert(cong(
                        dot(old(self).coeff_rows()[m], old(self).commvals()),
                        dot(old(self).chunk_vals()[m], old(self).gens()),
                    ));
                } else {
                    assert(s.coeff_rows()[m] == cv);
                    assert(s.chunk_vals()[m] == dv);
                }
            }
        }
        Ok(())
    }
}

/// The weights `s`, one byte per accepted row, tie a message to a
/// node's state: every outgoing coefficient is the weighted combination
/// of the accepted coefficient rows, and every outgoing data entry the
/// same weighted combination of the held chunks.
pub open spec fn combination_of(
    s: Seq<u8>,
    cv: Seq<int>,
    dv: Seq<int>,
    cr: Seq<Seq<int>>,
    ch: Seq<Seq<int>>,
) -> bool {
    &&& s.len() == cr.len()
    &&& forall|j: int| 0 <= j < cv.len() ==> cong(#[trigger] cv[j], dot(u8vals(s), col(cr, j)))
    &&& forall|k: int| 0 <= k < dv.len() ==> cong(#[trigger] dv[k], dot(u8vals(s), col(ch, k)))
}

impl<'a> Node<'a> {
    /// Emits a fresh random combination of the held chunks: one random
    /// byte weight per held chunk, the outgoing coefficients combining
    /// the accepted coefficient rows with those weights, the outgoing
    /// data combining the chunks, and the pinned commitments riding
    /// along. Every message this produces is valid: it passes the
    /// homomorphic check against the committer. Fails exactly when no
    /// chunks are held.
    #[verifier::rlimit(60)]
    pub fn send(&self) -> (r: Result<Message, CodingError>)
        requires
            self.wf(),
        ensures
            match r {
                Ok(m) => {
                    &&& self.count() > 0
                    &&& m.commvals() == self.commvals()
                    &&& m.cvals().len() == self.size()
                    &&& m.dvals().len() == self.chunk_vals()[0].len()
                    &&& m.valid(self.gens())
                    &&& exists|s: Seq<u8>|
                        #[trigger] combination_of(
                            s,
                            m.cvals(),
                            m.dvals(),
                            self.coeff_rows(),
                            self.chunk_vals(),
                        )
                },
                Err(e) => e == CodingError::Empty && self.count() == 0,
            },
    {
        if self.chunks.len() == 0 {
            return Err(CodingError::Empty);
        }
        let scalars = random_bytes(self.chunks.len());
        let coefficients = self.eschelon.compound_scalars(scalars.as_slice());
        proof {
            assert(self.chunk_vals()[0] == svals(self.chunks@[0]@));
        }
        let l = self.chunks[0].len();
        let ghost sv = u8vals(scalars@);
        let ghost ch = self.chunk_vals();
        let ghost rows = self.count() as int;
        let mut data: Vec<Scalar> = Vec::new();
        let mut kx: usize = 0;
        while kx < l
            invariant
                self.wf(),
                self.count() > 0,
                rows == self.count() as int,
                self.chunks@.len() == rows,
                scalars@.len() == rows,
                sv == u8vals(scalars@),
                ch == self.chunk_vals(),
                l == self.chunk_vals()[0].len(),
                kx <= l,
                data@.len() == kx,
                forall|j: int|
                    0 <= j < kx ==> cong(#[trigger] svals(data@)[j], dot(sv, col(ch, j))),
            decreases l - kx,
        {
            let cj = Ghost(col(ch, kx as int));
            let mut acc = scalar_zero();
            let mut i: usize = 0;
            while i < self.chunks.len()
                invariant
                    self.wf(),
                    self.count() > 0,
                    rows == self.count() as int,
                    self.chunks@.len() == rows,
                    scalars@.len() == rows,
                    sv == u8vals(scalars@),
                    ch == self.chunk_vals(),
                    kx < l,
                    l == self.chunk_vals()[0].len(),
                    cj@ == col(ch, kx as int),
                    i <= rows,
                    cong(sval(acc), dot(sv.take(i as int), cj@.take(i as int))),
                decreases rows - i,
            {
                proof {
                    assert(self.chunk_vals()[i as int].len() == l);
                    assert(self.chunk_vals()[i as int] == svals(self.chunks@[i as int]@));
                }
                let term = scalar_mul(&scalar_from_u8(scalars[i]), &self.chunks[i][kx]);
                let ghost acc0 = sval(acc);
                acc = scalar_add(&acc, &term);
                proof {
                    let a = sv[i as int];
                    let b = cj@[i as int];
                    assert(b == ch[i as int][kx as int]);
                    lemma_cong_add(acc0, sval(term), dot(sv.take(i as int), cj@.take(i as int)),
                        a * b);
                    lemma_cong_trans(
                        sval(acc),
                        acc0 + sval(term),
                        dot(sv.take(i as int), cj@.take(i as int)) + a * b,
                    );
                    lemma_dot_take_succ(sv, cj@, i as int);
                }
                i += 1;
            }
            proof {
                assert(cj@.len() == rows);
                lemma_dot_prefix(sv, cj@, rows);
            }
            let ghost d0 = data@;
            data.push(acc);
            proof {
                assert forall|j: int| 0 <= j < kx + 1 implies cong(
                    #[trigger] svals(data@)[j],
                    dot(sv, col(ch, j)),
                ) by {
                    if j < kx {
                        assert(data@[j] == d0[j]);
                        assert(svals(d0)[j] == sval(d0[j]));
                    }
                }
            }
            kx += 1;
        }
        let commitments = copy_points(&self.commitments);
        let msg = Message { chunk: Chunk { data, coefficients }, commitments };
        proof {
            let cr = self.coeff_rows();
            let comm = self.commvals();
            let gg = self.gens();
            let kk = self.size();
            self.eschelon.lemma_shape();
            assert(cr.len() == rows);
            assert(comm.len() == kk);
            let rt = row_times(sv, cr, kk);
            assert forall|j: int| 0 <= j < kk implies cong(#[trigger] msg.cvals()[j], rt[j]) by {
                assert(rt[j] == dot(sv, col(cr, j)));
                assert(cong(svals(coefficients@)[j], dot(u8vals(scalars@), col(cr, j))));
            }
            lemma_dot_cong_left(msg.cvals(), rt, comm);
            lemma_row_times_dot(sv, cr, comm, kk);
            let gtl = gg.take(l as int);
            assert forall|i: int| 0 <= i < cr.len() implies cong(
                #[trigger] dot(cr[i], comm),
                dot(ch[i], gtl),
            ) by {
                assert(cong(dot(cr[i], comm), dot(ch[i], gg)));
                assert(ch[i].len() == l);
                lemma_dot_prefix(ch[i], gg, l as int);
                assert(ch[i].take(l as int) =~= ch[i]);
            }
            lemma_wsum_cong(sv, cr, comm, ch, gtl);
            lemma_row_times_dot(sv, ch, gtl, l as nat);
            let rt2 = row_times(sv, ch, l as nat);
            assert forall|j: int| 0 <= j < l implies cong(#[trigger] msg.dvals()[j], rt2[j]) by {
                assert(rt2[j] == dot(sv, col(ch, j)));
            }
            lemma_dot_cong_left(msg.dvals(), rt2, gtl);
            lemma_dot_prefix(msg.dvals(), gg, l as int);
            assert(msg.dvals().take(l as int) =~= msg.dvals());
            // chain: cvals * comm ~ rt * comm = wsum(cr) ~ wsum(ch) = rt2 * gtl ~ dvals * gtl
            lemma_cong_trans(dot(msg.cvals(), comm), dot(rt, comm), wsum(sv, ch, gtl));
            lemma_cong_sym(dot(msg.dvals(), gtl), dot(rt2, gtl));
            lemma_cong_trans(dot(msg.cvals(), comm), wsum(sv, ch, gtl), dot(msg.dvals(), gtl));
            assert(cong(dot(msg.cvals(), msg.commvals()), dot(msg.dvals(), gg)));
            assert(combination_of(scalars@, msg.cvals(), msg.dvals(), cr, ch));
        }
        Ok(msg)
    }
}

/// The residues of one reconstructed source row: the weights `m`
/// applied to the held chunks, column by column.
pub open spec fn combined_row(m: Seq<int>, ch: Seq<Seq<int>>, l: nat) -> Seq<int> {
    Seq::new(l, |k: int| residue(dot(m, col(ch, k))))
}

/// The bytes of the block reconstructed row by row: each weight row of
/// `minv` combines the held chunks into one source row, which the
/// packed codec turns back into bytes.
pub open spec fn decode_rows(minv: Seq<Seq<int>>, ch: Seq<Seq<int>>, l: nat) -> Seq<u8>
    decreases minv.len(),
{
    if minv.len() == 0 {
        Seq::empty()
    } else {
        decode_packed(combined_row(minv[0], ch, l)) + decode_rows(minv.drop_first(), ch, l)
    }
}

proof fn lemma_decode_rows_snoc(minv: Seq<Seq<int>>, ch: Seq<Seq<int>>, l: nat, i: int)
    requires
        0 <= i < minv.len(),
    ensures
        decode_rows(minv.take(i + 1), ch, l) == decode_rows(minv.take(i), ch, l) + decode_packed(
            combined_row(minv[i], ch, l),
        ),
    decreases i,
{
    reveal_with_fuel(decode_rows, 3);
    if i == 0 {
        assert(minv.take(1).drop_first() =~= Seq::<Seq<int>>::empty());
        assert(minv.take(1)[0] == minv[0]);
        assert(decode_rows(minv.take(0), ch, l) =~= Seq::<u8>::empty());
        assert(decode_rows(minv.take(1), ch, l) =~= decode_packed(combined_row(minv[0], ch, l)));
        assert(decode_rows(minv.take(0), ch, l) + decode_packed(combined_row(minv[0], ch, l))
            =~= decode_packed(combined_row(minv[0], ch, l)));
    } else {
        let md = minv.drop_first();
        assert(minv.take(i + 1).drop_first() =~= md.take(i));
        assert(minv.take(i).drop_first() =~= md.take(i - 1));
        assert(minv.take(i + 1)[0] == minv[0]);
        assert(minv.take(i)[0] == minv[0]);
        lemma_decode_rows_snoc(md, ch, l, i - 1);
        assert(md[i - 1] == minv[i]);
        let a = decode_packed(combined_row(minv[0], ch, l));
        let b = decode_rows(md.take(i - 1), ch, l);
        let c = decode_packed(combined_row(minv[i], ch, l));
        assert(decode_rows(minv.take(i + 1), ch, l) == a + (b + c));
        assert(decode_rows(minv.take(i), ch, l) == a + b);
        assert(a + (b + c) =~= (a + b) + c);
    }
}

/// When every held chunk is the combination of the source rows given by
/// its coefficient row, any matrix that inverts the coefficient rows
/// reconstructs the source rows exactly: applied to the held chunks, it
/// returns each source row up to congruence.
pub proof fn lemma_decode_recovers_source(
    minv: Seq<Seq<int>>,
    cr: Seq<Seq<int>>,
    ch: Seq<Seq<int>>,
    src: Seq<Seq<int>>,
    k: nat,
    l: nat,
)
    requires
        minv.len() == k,
        cr.len() == k,
        ch.len() == k,
        src.len() == k,
        forall|i: int| 0 <= i < k ==> (#[trigger] minv[i]).len() == k,
        forall|i: int| 0 <= i < k ==> (#[trigger] cr[i]).len() == k,
        forall|i: int| 0 <= i < k ==> (#[trigger] ch[i]).len() == l,
        mat_cong(mat_mul(minv, cr, k), identity(k)),
        forall|i: int, c: int|
            0 <= i < k && 0 <= c < l ==> cong(#[trigger] ch[i][c], dot(cr[i], col(src, c))),
    ensures
        forall|i: int, c: int|
            0 <= i < k && 0 <= c < l ==> cong(#[trigger] dot(minv[i], col(ch, c)), src[i][c]),
{
    assert forall|i: int, c: int| 0 <= i < k && 0 <= c < l implies cong(
        #[trigger] dot(minv[i], col(ch, c)),
        src[i][c],
    ) by {
        let chc = col(ch, c);
        let srcc = col(src, c);
        assert(chc.len() == k);
        assert(srcc.len() == k);
        let d = Seq::new(cr.len(), |m: int| dot(cr[m], srcc));
        assert forall|m: int| 0 <= m < k implies cong(#[trigger] chc[m], d[m]) by {
            assert(chc[m] == ch[m][c]);
            assert(d[m] == dot(cr[m], srcc));
        }
        lemma_dot_cong_right(minv[i], chc, d);
        lemma_wsum_as_dot(minv[i], cr, srcc);
        lemma_row_times_dot(minv[i], cr, srcc, k);
        assert(dot(minv[i], d) == dot(row_times(minv[i], cr, k), srcc));
        assert(mat_mul(minv, cr, k)[i] == row_times(minv[i], cr, k));
        let rt = row_times(minv[i], cr, k);
        assert forall|m: int| 0 <= m < k implies cong(#[trigger] rt[m], unit(k, i)[m]) by {
            assert(cong(mat_mul(minv, cr, k)[i][m], identity(k)[i][m]));
            assert(identity(k)[i] == unit(k, i));
        }
        lemma_dot_cong_left(rt, unit(k, i), srcc);
        lemma_dot_unit(k, i, srcc);
        assert(srcc[i] == src[i][c]);
        lemma_cong_trans(dot(minv[i], chc), dot(minv[i], d), dot(rt, srcc));
        lemma_cong_trans(dot(minv[i], chc), dot(rt, srcc), src[i][c]);
    }
}

impl<'a> Node<'a> {
    /// Reconstructs the block: the coefficient system is inverted, each
    /// row of the inverse combines the held chunks into one source row,
    /// and the packed codec turns the rows back into bytes, in order.
    /// Fails with `Underdetermined` before full rank, and with
    /// `MalformedChunk` when the chunk length cannot have come from the
    /// packed codec.
    #[verifier::rlimit(60)]
    pub fn decode(&self) -> (r: Result<Vec<u8>, CodingError>)
        requires
            self.wf(),
        ensures
            match r {
                Ok(out) => {
                    &&& self.count() == self.size()
                    &&& exists|minv: Seq<Seq<int>>|
                        {
                            &&& minv.len() == self.size()
                            &&& forall|i: int|
                                0 <= i < self.size() ==> (#[trigger] minv[i]).len() == self.size()
                            &&& mat_cong(
                                mat_mul(minv, self.coeff_rows(), self.size()),
                                identity(self.size()),
                            )
                            &&& out@ == decode_rows(
                                minv,
                                self.chunk_vals(),
                                (if self.size() > 0 {
                                    self.chunk_vals()[0].len()
                                } else {
                                    0
                                }),
                            )
                        }
                },
                Err(CodingError::Underdetermined) => self.count() < self.size(),
                Err(CodingError::MalformedChunk) => self.count() == self.size() && self.size() > 0
                    && self.chunk_vals()[0].len() % 64 == 1,
                Err(_) => false,
            },
    {
        let minv = match self.eschelon.inverse() {
            Ok(m) => m,
            Err(_) => {
                proof {
                    self.eschelon.lemma_shape();
                }
                return Err(CodingError::Underdetermined);
            },
        };
        let k = minv.len();
        proof {
            assert(k == self.size());
            self.eschelon.lemma_shape();
        }
        let l = if k > 0 {
            proof {
                assert(self.chunk_vals()[0] == svals(self.chunks@[0]@));
            }
            self.chunks[0].len()
        } else {
            0
        };
        if k > 0 && l % 64 == 1 {
            return Err(CodingError::MalformedChunk);
        }
        let ghost mv = smat(minv@);
        let ghost ch = self.chunk_vals();
        let mut out: Vec<u8> = Vec::new();
        let mut i: usize = 0;
        while i < k
            invariant
                self.wf(),
                self.count() == self.size(),
                k == self.size(),
                self.chunks@.len() == k,
                minv@.len() == k,
                mv == smat(minv@),
                ch == self.chunk_vals(),
                forall|m: int| 0 <= m < k ==> (#[trigger] mv[m]).len() == k,
                k > 0 ==> l == self.chunk_vals()[0].len(),
                k > 0 ==> l % 64 != 1,
                i <= k,
                out@ == decode_rows(mv.take(i as int), ch, l as nat),
            decreases k - i,
        {
            let ghost ii = i as int;
            proof {
                assert(mv[ii] == svals(minv@[ii]@));
                assert(minv@[ii]@.len() == k);
            }
            let mut rowsc: Vec<Scalar> = Vec::new();
            let mut kx: usize = 0;
            while kx < l
                invariant
                    self.wf(),
                    self.count() == self.size(),
                    k == self.size(),
                    self.chunks@.len() == k,
                    minv@.len() == k,
                    mv == smat(minv@),
                    ch == self.chunk_vals(),
                    0 <= ii < k,
                    ii == i as int,
                    mv[ii].len() == k,
                    minv@[ii]@.len() == k,
                    k > 0 ==> l == self.chunk_vals()[0].len(),
                    kx <= l,
                    rowsc@.len() == kx,
                    forall|j: int|
                        0 <= j < kx ==> #[trigger] svals(rowsc@)[j] == residue(
                            dot(mv[ii], col(ch, j)),
                        ),
                decreases l - kx,
            {
                let cj = Ghost(col(ch, kx as int));
                let mut acc = scalar_zero();
                let mut x: usize = 0;
                while x < k
                    invariant
                        self.wf(),
                        self.count() == self.size(),
                        k == self.size(),
                        self.chunks@.len() == k,
                        minv@.len() == k,
                        mv == smat(minv@),
                        ch == self.chunk_vals(),
                        0 <= ii < k,
                        ii == i as int,
                        mv[ii].len() == k,
                        minv@[ii]@.len() == k,
                        k > 0 ==> l == self.chunk_vals()[0].len(),
                        kx < l,
                        cj@ == col(ch, kx as int),
                        x <= k,
                        cong(sval(acc), dot(mv[ii].take(x as int), cj@.take(x as int))),
                    decreases k - x,
                {
                    proof {
                        assert(self.chunk_vals()[x as int].len() == l);
                        assert(self.chunk_vals()[x as int] == svals(self.chunks@[x as int]@));
                        assert(mv[ii][x as int] == sval(minv@[ii]@[x as int]));
                    }
                    let term = scalar_mul(&minv[i][x], &self.chunks[x][kx]);
                    let ghost acc0 = sval(acc);
                    acc = scalar_add(&acc, &term);
                    proof {
                        let a = mv[ii][x as int];
                        let b = cj@[x as int];
                        assert(b == ch[x as int][kx as int]);
                        lemma_cong_add(acc0, sval(term), dot(
                            mv[ii].take(x as int),
                            cj@.take(x as int),
                        ), a * b);
                        lemma_cong_trans(
                            sval(acc),
                            acc0 + sval(term),
                            dot(mv[ii].take(x as int), cj@.take(x as int)) + a * b,
                        );
                        lemma_dot_take_succ(mv[ii], cj@, x as int);
                    }
                    x += 1;
                }
                let ghost r0 = rowsc@;
                rowsc.push(acc);
                proof {
                    assert(cj@.len() == k);
                    lemma_dot_prefix(mv[ii], cj@, k as int);
                    lemma_sval_in_field(acc);
                    lemma_residue_unique(sval(acc), dot(mv[ii], cj@));
                    assert forall|j: int| 0 <= j < kx + 1 implies #[trigger] svals(rowsc@)[j]
                        == residue(dot(mv[ii], col(ch, j))) by {
                        if j < kx {
                            assert(rowsc@[j] == r0[j]);
                            assert(svals(r0)[j] == sval(r0[j]));
                        }
                    }
                }
                kx += 1;
            }
            let bytes = match scalars_to_chunk(rowsc.as_slice()) {
                Ok(b) => b,
                Err(_) => {
                    // the chunk length was checked before the loop
                    proof {
                        assert(rowsc@.len() == l);
                        assert(false);
                    }
                    return Err(CodingError::MalformedChunk);
                },
            };
            let mut tail_bytes_vec = bytes;
            proof {
                assert(svals(rowsc@) =~= combined_row(mv[ii], ch, l as nat));
                lemma_decode_rows_snoc(mv, ch, l as nat, ii);
            }
            out.append(&mut tail_bytes_vec);
            i += 1;
        }
        proof {
            assert(mv.take(k as int) =~= mv);
            assert(out@ == decode_rows(mv, ch, l as nat));
            let lspec = (if self.size() > 0 {
                self.chunk_vals()[0].len()
            } else {
                0
            });
            assert(lspec == l as nat);
            assert(mat_cong(mat_mul(mv, self.coeff_rows(), self.size()), identity(self.size())));
            assert(exists|w: Seq<Seq<int>>|
                {
                    &&& w.len() == self.size()
                    &&& forall|i: int|
                        0 <= i < self.size() ==> (#[trigger] w[i]).len() == self.size()
                    &&& mat_cong(mat_mul(w, self.coeff_rows(), self.size()), identity(self.size()))
                    &&& out@ == decode_rows(w, self.chunk_vals(), lspec)
                }) by {
                assert({
                    &&& mv.len() == self.size()
                    &&& forall|i: int|
                        0 <= i < self.size() ==> (#[trigger] mv[i]).len() == self.size()
                    &&& mat_cong(mat_mul(mv, self.coeff_rows(), self.size()), identity(
                        self.size(),
                    ))
                    &&& out@ == decode_rows(mv, self.chunk_vals(), lspec)
                });
            }
        }
        Ok(out)
    }
}

/// The source chunks' bytes, in order.
pub open spec fn concat_bytes(bs: Seq<Seq<u8>>) -> Seq<u8>
    decreases bs.len(),
{
    if bs.len() == 0 {
        Seq::empty()
    } else {
        bs[0] + concat_bytes(bs.drop_first())
    }
}

proof fn lemma_decode_rows_concat(minv: Seq<Seq<int>>, ch: Seq<Seq<int>>, l: nat, bs: Seq<Seq<u8>>)
    requires
        minv.len() == bs.len(),
        forall|i: int|
            0 <= i < minv.len() ==> decode_packed(combined_row(#[trigger] minv[i], ch, l))
                == bs[i],
    ensures
        decode_rows(minv, ch, l) == concat_bytes(bs),
    decreases minv.len(),
{
    if minv.len() == 0 {
    } else {
        assert forall|i: int| 0 <= i < minv.drop_first().len() implies decode_packed(
            combined_row(#[trigger] minv.drop_first()[i], ch, l),
        ) == bs.drop_first()[i] by {
            assert(minv.drop_first()[i] == minv[i + 1]);
            assert(bs.drop_first()[i] == bs[i + 1]);
        }
        lemma_decode_rows_concat(minv.drop_first(), ch, l, bs.drop_first());
        assert(decode_packed(combined_row(minv[0], ch, l)) == bs[0]);
    }
}

/// The decode round trip: when each held chunk is the combination of
/// the packed encodings of the source chunks prescribed by its accepted
/// coefficient row, and the coefficient rows have an inverse, decoding
/// with that inverse returns the source chunks' original bytes, in
/// order and bit for bit.
pub proof fn lemma_decode_roundtrip(
    minv: Seq<Seq<int>>,
    cr: Seq<Seq<int>>,
    ch: Seq<Seq<int>>,
    bs: Seq<Seq<u8>>,
    k: nat,
    l: nat,
)
    requires
        minv.len() == k,
        cr.len() == k,
        ch.len() == k,
        bs.len() == k,
        forall|i: int| 0 <= i < k ==> (#[trigger] minv[i]).len() == k,
        forall|i: int| 0 <= i < k ==> (#[trigger] cr[i]).len() == k,
        forall|i: int| 0 <= i < k ==> (#[trigger] ch[i]).len() == l,
        forall|i: int| 0 <= i < k ==> (#[trigger] bs[i]).len() % 32 == 0,
        forall|i: int| 0 <= i < k ==> encode_packed(#[trigger] bs[i]).len() == l,
        mat_cong(mat_mul(minv, cr, k), identity(k)),
        forall|i: int, c: int|
            0 <= i < k && 0 <= c < l ==> cong(
                #[trigger] ch[i][c],
                dot(cr[i], col(Seq::new(k, |x: int| encode_packed(bs[x])), c)),
            ),
    ensures
        decode_rows(minv, ch, l) == concat_bytes(bs),
{
    let src = Seq::new(k, |x: int| encode_packed(bs[x]));
    assert forall|i: int| 0 <= i < k implies (#[trigger] src[i]).len() == l by {
        assert(src[i] == encode_packed(bs[i]));
    }
    lemma_decode_recovers_source(minv, cr, ch, src, k, l);
    assert forall|i: int| 0 <= i < minv.len() implies decode_packed(
        combined_row(#[trigger] minv[i], ch, l),
    ) == bs[i] by {
        crate::blocks::lemma_encode_packed_in_field(bs[i]);
        assert forall|c: int| 0 <= c < l implies #[trigger] combined_row(minv[i], ch, l)[c]
            == src[i][c] by {
            assert(cong(dot(minv[i], col(ch, c)), src[i][c]));
            assert(src[i] == encode_packed(bs[i]));
            assert(crate::field::in_field(encode_packed(bs[i])[c]));
            lemma_cong_sym(dot(minv[i], col(ch, c)), src[i][c]);
            lemma_residue_unique(src[i][c], dot(minv[i], col(ch, c)));
        }
        assert(combined_row(minv[i], ch, l) =~= src[i]);
        crate::blocks::lemma_roundtrip_packed(bs[i]);
        assert(decode_packed(encode_packed(bs[i])) == bs[i]);
    }
    lemma_decode_rows_concat(minv, ch, l, bs);
}

} // verus!
