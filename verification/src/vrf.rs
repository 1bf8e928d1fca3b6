//! VRF-based verifiable randomness for transaction ordering.
//!
//! The validator's identity key pair serves as the VRF primitive. The signature
//! over (slot || commit) is the "proof"; SHA-256 of the proof is the
//! "randomness". Any node can verify by checking the signature against the
//! validator's published public key; no external key registry is required.
use crate::digest::{digest_of, hasher_finalize, hasher_new, hasher_update};
use crate::sorting::sort;
use solana_keypair::Keypair;
use vstd::prelude::*;

verus! {

/// Why a VRF output is refused.
#[derive(Debug, PartialEq, Eq, Structural, Clone, Copy)]
pub enum VrfError {
    /// The proof is not a signature of the validator over (slot || commit).
    BadSignature,
    /// The randomness is not the digest of the proof.
    RandomnessMismatch,
}

#[derive(Debug, Clone)]
pub struct VrfOutput {
    /// 32 bytes of randomness = SHA-256(proof).
    pub randomness: [u8; 32],
    /// The ed25519 signature bytes = the VRF proof.
    pub proof: [u8; 64],
    /// Validator public key, so verifiers don't need it out-of-band.
    pub pubkey: [u8; 32],
    /// Pass counter / slot this VRF was evaluated for.
    pub slot: u64,
    /// SHA-256 commit over the transaction set being ordered.
    pub commit: [u8; 32],
}

/// The message that is signed for a slot and a commit: the slot's eight bytes,
/// least significant first, and then the commit.
pub open spec fn vrf_message(slot: u64, commit: Seq<u8>) -> Seq<u8> {
    vstd::bytes::spec_u64_to_le_bytes(slot) + commit
}

/// The byte string that a commit over `signatures` is the digest of: the
/// signatures in lexicographic order, one after another.
pub open spec fn commit_preimage(signatures: Seq<Seq<u8>>) -> Seq<u8> {
    signatures.sort_by(|a: Seq<u8>, b: Seq<u8>| crate::bytes::lex_le(a, b)).flatten()
}

/// The commit over `signatures`.
pub open spec fn commit_of(signatures: Seq<Seq<u8>>) -> Seq<u8> {
    crate::digest::sha256(commit_preimage(signatures))
}

/// What a slice of byte buffers holds.
pub open spec fn contents(buffers: Seq<&[u8]>) -> Seq<Seq<u8>> {
    buffers.map_values(|buffer: &[u8]| buffer@)
}

/// `output` is the VRF output of the validator with the given secret key for
/// the given slot and commit.
pub open spec fn evaluates_to(
    secret: Seq<u8>,
    slot: u64,
    commit: Seq<u8>,
    output: VrfOutput,
) -> bool {
    &&& output.slot == slot
    &&& output.commit@ == commit
    &&& output.pubkey@ == crate::identity::ed25519_public_key(secret)
    &&& output.proof@ == crate::identity::ed25519_signature(secret, vrf_message(slot, commit))
    &&& output.randomness@ == crate::digest::sha256(output.proof@)
}

impl VrfOutput {
    /// The proof is accepted as the validator's signature over (slot || commit).
    pub open spec fn proof_accepted(self) -> bool {
        crate::identity::ed25519_accepts(
            self.pubkey@,
            vrf_message(self.slot, self.commit@),
            self.proof@,
        )
    }

    /// What verification answers, given whether the proof is accepted and the
    /// digest of the proof.
    pub open spec fn verdict(
        self,
        proof_accepted: bool,
        proof_digest: Seq<u8>,
    ) -> Result<(), VrfError> {
        if !proof_accepted {
            Err(VrfError::BadSignature)
        } else if self.randomness@ != proof_digest {
            Err(VrfError::RandomnessMismatch)
        } else {
            Ok(())
        }
    }

    /// What verification answers.
    pub open spec fn verification(self) -> Result<(), VrfError> {
        self.verdict(self.proof_accepted(), crate::digest::sha256(self.proof@))
    }

    /// The message that is signed for a slot and a commit.
    pub fn message(slot: u64, commit: &[u8; 32]) -> (msg: [u8; 40])
        ensures
            msg@ == vrf_message(slot, commit@),
            forall|i: int|
                0 <= i < 8 ==> #[trigger] msg@[i] == vstd::bytes::spec_u64_to_le_bytes(slot)[i],
            forall|i: int| 0 <= i < 32 ==> msg@[8 + i] == #[trigger] commit@[i],
    {
        let mut msg = [0u8; 40];
        let slot_bytes = vstd::bytes::u64_to_le_bytes(slot);
        proof {
            vstd::bytes::lemma_auto_spec_u64_to_from_le_bytes();
        }
        let mut i: usize = 0;
        while i < 40
            invariant
                i <= 40,
                slot_bytes@ == vstd::bytes::spec_u64_to_le_bytes(slot),
                slot_bytes@.len() == 8,
                forall|j: int| 0 <= j < i ==> msg@[j] == vrf_message(slot, commit@)[j],
            decreases 40 - i,
        {
            msg[i] = if i < 8 {
                slot_bytes[i]
            } else {
                commit[i - 8]
            };
            i += 1;
        }
        assert(msg@ =~= vrf_message(slot, commit@));
        msg
    }

    /// Produce a VRF output by signing (slot || commit) with the validator's
    /// identity key pair. Only the validator holding the secret key can do
    /// this.
    pub fn evaluate(keypair: &Keypair, slot: u64, commit: [u8; 32]) -> (output: Self)
        ensures
            evaluates_to(crate::identity::keypair_secret(*keypair), slot, commit@, output),
            !crate::identity::commits_to_neutral_element(output.proof@)
                ==> output.verification() == Ok::<(), VrfError>(()),
            output.slot == slot,
            output.commit@ == commit@,
            output.pubkey@ == crate::identity::ed25519_public_key(
                crate::identity::keypair_secret(*keypair),
            ),
            output.proof@ == crate::identity::ed25519_signature(
                crate::identity::keypair_secret(*keypair),
                vstd::bytes::spec_u64_to_le_bytes(slot) + commit@,
            ),
            output.randomness@ == crate::digest::sha256(output.proof@),
            !crate::identity::commits_to_neutral_element(output.proof@)
                ==> crate::identity::ed25519_accepts(
                output.pubkey@,
                vstd::bytes::spec_u64_to_le_bytes(slot) + commit@,
                output.proof@,
            ),
    {
        let msg = Self::message(slot, &commit);
        let proof = crate::identity::sign_message(keypair, &msg);
        let randomness = digest_of(&proof);
        let pubkey = crate::identity::public_key(keypair);
        Self { randomness, proof, pubkey, slot, commit }
    }

    /// The answer of a verification, from whether the proof is accepted and
    /// the digest of the proof.
    pub fn judge(&self, proof_accepted: bool, proof_digest: &[u8; 32]) -> (answer: Result<
        (),
        VrfError,
    >)
        ensures
            answer == self.verdict(proof_accepted, proof_digest@),
            answer is Ok <==> proof_accepted && self.randomness@ == proof_digest@,
            answer == Err::<(), VrfError>(VrfError::BadSignature) <==> !proof_accepted,
            answer == Err::<(), VrfError>(VrfError::RandomnessMismatch) <==> proof_accepted
                && self.randomness@ != proof_digest@,
    {
        if !proof_accepted {
            return Err(VrfError::BadSignature);
        }
        if !crate::bytes::bytes_eq(proof_digest, &self.randomness) {
            return Err(VrfError::RandomnessMismatch);
        }
        Ok(())
    }

    /// Verify this VRF output. Any node can call this; no secret is needed.
    pub fn verify(&self) -> (answer: Result<(), VrfError>)
        ensures
            answer == self.verification(),
            ({
                let accepted = crate::identity::ed25519_accepts(
                    self.pubkey@,
                    vstd::bytes::spec_u64_to_le_bytes(self.slot) + self.commit@,
                    self.proof@,
                );
                let digest = crate::digest::sha256(self.proof@);
                &&& answer is Ok <==> accepted && self.randomness@ == digest
                &&& answer == Err::<(), VrfError>(VrfError::BadSignature) <==> !accepted
                &&& answer == Err::<(), VrfError>(VrfError::RandomnessMismatch) <==> accepted
                    && self.randomness@ != digest
            }),
    {
        let msg = Self::message(self.slot, &self.commit);
        let proof_accepted = crate::identity::verify_signature(&self.proof, &self.pubkey, &msg);
        let proof_digest = digest_of(&self.proof);
        self.judge(proof_accepted, &proof_digest)
    }
}

/// Compute a commit hash from a slice of byte buffers (transaction signatures
/// or ids). Sort, then hash, so the commit is independent of input order.
pub fn commit_hash(tx_signatures: &[&[u8]]) -> (commit: [u8; 32])
    ensures
        commit@ == commit_of(contents(tx_signatures@)),
        exists|sorted: Seq<Seq<u8>>|
            {
                &&& sorted.to_multiset() == tx_signatures@.map_values(
                    |buffer: &[u8]| buffer@,
                ).to_multiset()
                &&& forall|i: int, j: int|
                    0 <= i < j < sorted.len() ==> crate::bytes::lex_le(
                        #[trigger] sorted[i],
                        #[trigger] sorted[j],
                    )
                &&& commit@ == crate::digest::sha256(#[trigger] sorted.flatten())
            },
{
    proof {
        let given = tx_signatures@.map_values(|buffer: &[u8]| buffer@);
        assert(contents(tx_signatures@) =~= given);
        lemma_preimage_is_sorted(given);
    }
    let mut hasher = hasher_new();
    let sorted = sort(tx_signatures);
    let ghost pieces = contents(sorted@);
    proof {
        assert(pieces =~= crate::sorting::keys(sorted@));
        assert(contents(tx_signatures@) =~= crate::sorting::keys(tx_signatures@));
        assert((|a: Seq<u8>, b: Seq<u8>| crate::bytes::lex_le(a, b)) =~= (|
            a: Seq<u8>,
            b: Seq<u8>,
        | <&[u8] as crate::sorting::Ranked>::key_le(a, b)));
        assert(pieces.take(0) =~= Seq::<Seq<u8>>::empty());
    }
    let mut i: usize = 0;
    while i < sorted.len()
        invariant
            i <= sorted@.len(),
            pieces == contents(sorted@),
            crate::digest::absorbed(hasher) == pieces.take(i as int).flatten(),
        decreases sorted@.len() - i,
    {
        hasher_update(&mut hasher, sorted[i]);
        proof {
            assert(pieces.take(i + 1) =~= pieces.take(i as int).push(pieces[i as int]));
            pieces.take(i as int).lemma_flatten_push(pieces[i as int]);
        }
        i += 1;
    }
    proof {
        assert(pieces.take(i as int) =~= pieces);
    }
    hasher_finalize(hasher)
}

/// The preimage of a commit is the signatures in some order that is sorted.
proof fn lemma_preimage_is_sorted(signatures: Seq<Seq<u8>>)
    ensures
        exists|sorted: Seq<Seq<u8>>|
            {
                &&& sorted.to_multiset() == signatures.to_multiset()
                &&& forall|i: int, j: int|
                    0 <= i < j < sorted.len() ==> crate::bytes::lex_le(
                        #[trigger] sorted[i],
                        #[trigger] sorted[j],
                    )
                &&& commit_preimage(signatures) == #[trigger] sorted.flatten()
            },
{
    let leq = |x: Seq<u8>, y: Seq<u8>| crate::bytes::lex_le(x, y);
    crate::bytes::lex_le_is_total_order();
    signatures.lemma_sort_by_ensures(leq);
    let sorted = signatures.sort_by(leq);
    assert forall|i: int, j: int| 0 <= i < j < sorted.len() implies crate::bytes::lex_le(
        #[trigger] sorted[i],
        #[trigger] sorted[j],
    ) by {
        assert(leq(sorted[i], sorted[j]));
    }
    assert(commit_preimage(signatures) == sorted.flatten());
}

/// A commit is the digest of all the signatures, one after another, in
/// lexicographic order: whichever way they are sorted, that is what is hashed.
pub proof fn commit_is_digest_of_all_signatures(
    signatures: Seq<Seq<u8>>,
    sorted: Seq<Seq<u8>>,
)
    requires
        sorted.to_multiset() == signatures.to_multiset(),
        forall|i: int, j: int|
            0 <= i < j < sorted.len() ==> crate::bytes::lex_le(
                #[trigger] sorted[i],
                #[trigger] sorted[j],
            ),
    ensures
        commit_preimage(signatures) == sorted.flatten(),
        commit_of(signatures) == crate::digest::sha256(sorted.flatten()),
{
    let leq = |x: Seq<u8>, y: Seq<u8>| crate::bytes::lex_le(x, y);
    crate::bytes::lex_le_is_total_order();
    signatures.lemma_sort_by_ensures(leq);
    assert forall|i: int, j: int| 0 <= i < j < sorted.len() implies #[trigger] leq(
        sorted[i],
        sorted[j],
    ) by {
        assert(crate::bytes::lex_le(sorted[i], sorted[j]));
    }
    vstd::seq_lib::lemma_sorted_unique(signatures.sort_by(leq), sorted, leq);
}

proof fn lemma_flatten_len(pieces: Seq<Seq<u8>>)
    ensures
        pieces.flatten().len() == pieces.fold_left(0int, |n: int, piece: Seq<u8>| n + piece.len()),
    decreases pieces.len(),
{
    if pieces.len() > 0 {
        lemma_flatten_len(pieces.drop_last());
        assert(pieces =~= pieces.drop_last().push(pieces.last()));
        pieces.drop_last().lemma_flatten_push(pieces.last());
    }
}

/// The bytes that a commit is the digest of are as many as all the signatures
/// have together.
pub proof fn commit_covers_every_byte(signatures: Seq<Seq<u8>>)
    ensures
        commit_preimage(signatures).len() == signatures.fold_left(
            0int,
            |n: int, signature: Seq<u8>| n + signature.len(),
        ),
{
    lemma_preimage_is_sorted(signatures);
    let sorted = choose|sorted: Seq<Seq<u8>>|
        {
            &&& sorted.to_multiset() == signatures.to_multiset()
            &&& forall|i: int, j: int|
                0 <= i < j < sorted.len() ==> crate::bytes::lex_le(
                    #[trigger] sorted[i],
                    #[trigger] sorted[j],
                )
            &&& commit_preimage(signatures) == #[trigger] sorted.flatten()
        };
    let add_len = |n: int, signature: Seq<u8>| n + signature.len();
    lemma_flatten_len(sorted);
    vstd::seq_lib::lemma_fold_left_permutation(sorted, signatures, add_len, 0int);
}

proof fn lemma_flatten_is_injective(a: Seq<Seq<u8>>, b: Seq<Seq<u8>>, len: nat)
    requires
        len > 0,
        forall|i: int| 0 <= i < a.len() ==> (#[trigger] a[i]).len() == len,
        forall|i: int| 0 <= i < b.len() ==> (#[trigger] b[i]).len() == len,
        a.flatten() == b.flatten(),
    ensures
        a == b,
    decreases a.len(),
{
    if a.len() == 0 {
        if b.len() > 0 {
            assert(b.flatten().len() >= b[0].len());
        }
        assert(a =~= b);
    } else {
        assert(a.flatten().len() >= a[0].len());
        assert(b.len() > 0);
        let n = len as int;
        assert(a.flatten().take(n) =~= a[0]);
        assert(b.flatten().take(n) =~= b[0]);
        assert(a.flatten().skip(n) =~= a.drop_first().flatten());
        assert(b.flatten().skip(n) =~= b.drop_first().flatten());
        lemma_flatten_is_injective(a.drop_first(), b.drop_first(), len);
        assert(a =~= seq![a[0]] + a.drop_first());
        assert(b =~= seq![b[0]] + b.drop_first());
    }
}

/// A commit leaves no signature out: for signatures of one length, different
/// sets of signatures, counted, have different preimages.
pub proof fn commit_tells_signatures_apart(a: Seq<Seq<u8>>, b: Seq<Seq<u8>>, len: nat)
    requires
        len > 0,
        forall|i: int| 0 <= i < a.len() ==> (#[trigger] a[i]).len() == len,
        forall|i: int| 0 <= i < b.len() ==> (#[trigger] b[i]).len() == len,
        commit_preimage(a) == commit_preimage(b),
    ensures
        a.to_multiset() == b.to_multiset(),
{
    broadcast use vstd::seq_lib::group_to_multiset_ensures;

    lemma_preimage_is_sorted(a);
    lemma_preimage_is_sorted(b);
    let sorted_a = choose|sorted: Seq<Seq<u8>>|
        {
            &&& sorted.to_multiset() == a.to_multiset()
            &&& forall|i: int, j: int|
                0 <= i < j < sorted.len() ==> crate::bytes::lex_le(
                    #[trigger] sorted[i],
                    #[trigger] sorted[j],
                )
            &&& commit_preimage(a) == #[trigger] sorted.flatten()
        };
    let sorted_b = choose|sorted: Seq<Seq<u8>>|
        {
            &&& sorted.to_multiset() == b.to_multiset()
            &&& forall|i: int, j: int|
                0 <= i < j < sorted.len() ==> crate::bytes::lex_le(
                    #[trigger] sorted[i],
                    #[trigger] sorted[j],
                )
            &&& commit_preimage(b) == #[trigger] sorted.flatten()
        };
    assert forall|i: int| 0 <= i < sorted_a.len() implies (#[trigger] sorted_a[i]).len() == len by {
        assert(sorted_a.contains(sorted_a[i]));
        assert(sorted_a.to_multiset().count(sorted_a[i]) > 0);
        assert(a.contains(sorted_a[i]));
        assert(a[a.index_of(sorted_a[i])] == sorted_a[i]);
    }
    assert forall|i: int| 0 <= i < sorted_b.len() implies (#[trigger] sorted_b[i]).len() == len by {
        assert(sorted_b.contains(sorted_b[i]));
        assert(sorted_b.to_multiset().count(sorted_b[i]) > 0);
        assert(b.contains(sorted_b[i]));
        assert(b[b.index_of(sorted_b[i])] == sorted_b[i]);
    }
    lemma_flatten_is_injective(sorted_a, sorted_b, len);
}

/// The slot can be read off the first eight bytes of a message, least significant
/// first, and the commit is all the rest.
pub proof fn message_spells_slot_and_commit(slot: u64, commit: Seq<u8>)
    ensures
        vrf_message(slot, commit).len() == 8 + commit.len(),
        vstd::bytes::spec_u64_from_le_bytes(vrf_message(slot, commit).take(8)) == slot,
        vrf_message(slot, commit).skip(8) == commit,
{
    vstd::bytes::lemma_auto_spec_u64_to_from_le_bytes();
    let message = vrf_message(slot, commit);
    assert(message.take(8) =~= vstd::bytes::spec_u64_to_le_bytes(slot));
    assert(message.skip(8) =~= commit);
}

/// The commit is independent of the order of the signatures.
pub proof fn commit_is_order_independent(a: Seq<Seq<u8>>, b: Seq<Seq<u8>>)
    requires
        a.to_multiset() == b.to_multiset(),
    ensures
        commit_preimage(a) == commit_preimage(b),
        commit_of(a) == commit_of(b),
{
    let leq = |x: Seq<u8>, y: Seq<u8>| crate::bytes::lex_le(x, y);
    crate::bytes::lex_le_is_total_order();
    a.lemma_sort_by_ensures(leq);
    b.lemma_sort_by_ensures(leq);
    vstd::seq_lib::lemma_sorted_unique(a.sort_by(leq), b.sort_by(leq), leq);
}

/// A message determines the slot and the commit that it was made for: a proof
/// for one slot and commit is a signature over no other.
pub proof fn message_determines_slot_and_commit(
    slot_a: u64,
    commit_a: Seq<u8>,
    slot_b: u64,
    commit_b: Seq<u8>,
)
    requires
        vrf_message(slot_a, commit_a) == vrf_message(slot_b, commit_b),
    ensures
        slot_a == slot_b,
        commit_a == commit_b,
{
    vstd::bytes::lemma_auto_spec_u64_to_from_le_bytes();
    let a = vrf_message(slot_a, commit_a);
    let b = vrf_message(slot_b, commit_b);
    assert(a.take(8) =~= vstd::bytes::spec_u64_to_le_bytes(slot_a));
    assert(b.take(8) =~= vstd::bytes::spec_u64_to_le_bytes(slot_b));
    assert(a.skip(8) =~= commit_a);
    assert(b.skip(8) =~= commit_b);
}

/// The VRF is deterministic: one key, slot and commit give one output.
pub proof fn evaluation_is_deterministic(
    secret: Seq<u8>,
    slot: u64,
    commit: Seq<u8>,
    a: VrfOutput,
    b: VrfOutput,
)
    requires
        evaluates_to(secret, slot, commit, a),
        evaluates_to(secret, slot, commit, b),
    ensures
        a.randomness@ == b.randomness@,
        a.proof@ == b.proof@,
        a.pubkey@ == b.pubkey@,
        a.slot == b.slot,
        a.commit@ == b.commit@,
{
}

/// A proof leaves no choice of the randomness: outputs that verify with one proof
/// have one randomness.
pub proof fn proof_determines_randomness(a: VrfOutput, b: VrfOutput)
    requires
        a.verification() is Ok,
        b.verification() is Ok,
        a.proof@ == b.proof@,
    ensures
        a.randomness@ == b.randomness@,
{
}

/// An output that verifies no longer does with any other randomness.
pub proof fn tampered_randomness_is_refused(honest: VrfOutput, tampered: VrfOutput)
    requires
        honest.verification() is Ok,
        tampered.proof@ == honest.proof@,
        tampered.pubkey@ == honest.pubkey@,
        tampered.slot == honest.slot,
        tampered.commit@ == honest.commit@,
        tampered.randomness@ != honest.randomness@,
    ensures
        tampered.verification() == Err::<(), VrfError>(VrfError::RandomnessMismatch),
{
}

/// An output verifies just when its proof is accepted and its randomness is the
/// digest of the proof.
pub proof fn verification_accepts_iff(output: VrfOutput)
    ensures
        output.verification() is Ok <==> output.proof_accepted() && output.randomness@
            == crate::digest::sha256(output.proof@),
{
}

} // verus!
