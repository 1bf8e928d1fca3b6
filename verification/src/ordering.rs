//! Ooze ordering: verifiable randomness in place of a priority-fee auction.
//!
//! Priority fees are still collected (validator revenue is preserved) but do
//! not determine position within a block. The order is a VRF-seeded CSPRNG
//! shuffle, so sandwich attacks, atomic bundling and sniping lose their
//! reliability, while arbitrage and normal DeFi continue to work.
use crate::shuffle::shuffle_with_seed;
use crate::vrf::{commit_hash, VrfError, VrfOutput};
use solana_keypair::Keypair;
use vstd::prelude::*;

verus! {

/// A transaction as seen by the ordering module. Deliberately opaque: only the
/// signature (for the commit) and a stable handle (for returning ordering
/// decisions) are needed.
#[derive(Debug, Clone)]
pub struct OrderableTx {
    /// The transaction signature (64 bytes) or any stable identifier bytes.
    pub signature: Vec<u8>,
    /// Caller-defined handle; the scheduler passes ids back in this.
    pub handle: u64,
    /// Priority fee in lamports. Preserved but unused for ordering.
    pub priority_fee: u64,
}

#[derive(Debug, Clone)]
pub struct OrderingResult {
    pub ordered_handles: Vec<u64>,
    pub vrf: VrfOutput,
    pub slot: u64,
    pub tx_count: usize,
}

/// Why a published ordering is refused.
#[derive(Debug, PartialEq, Eq, Structural, Clone, Copy)]
pub enum VerifyError {
    /// The commit hash does not match the transaction set.
    CommitMismatch,
    /// The VRF output does not verify.
    BadVrf,
    /// The slot in the result does not match the VRF slot.
    SlotMismatch,
    /// The published ordering does not match the re-derived ordering.
    OrderingMismatch,
}

/// The signatures of the transactions, in the transactions' order.
pub open spec fn signatures(txs: Seq<OrderableTx>) -> Seq<Seq<u8>> {
    txs.map_values(|tx: OrderableTx| tx.signature@)
}

/// The handles of the transactions, in the transactions' order.
pub open spec fn handles(txs: Seq<OrderableTx>) -> Seq<u64> {
    txs.map_values(|tx: OrderableTx| tx.handle)
}

/// The handles in the order that a given randomness puts them in.
pub open spec fn ordering_of(handles: Seq<u64>, randomness: Seq<u8>) -> Seq<u64> {
    crate::shuffle::permute(handles, crate::shuffle::seeded_order(handles.len(), randomness))
}

/// `result` is the ordering of `txs` for `slot` by the validator with the given
/// secret key.
pub open spec fn orders_to(
    secret: Seq<u8>,
    txs: Seq<OrderableTx>,
    slot: u64,
    result: OrderingResult,
) -> bool {
    &&& result.slot == slot
    &&& result.tx_count == txs.len()
    &&& crate::vrf::evaluates_to(
        secret,
        slot,
        crate::vrf::commit_of(signatures(txs)),
        result.vrf,
    )
    &&& result.ordered_handles@ == ordering_of(handles(txs), result.vrf.randomness@)
}

impl OrderingResult {
    /// What verification answers, given the commit over the transactions, the
    /// answer of the VRF verification, and the re-derived ordering.
    pub open spec fn verdict(
        self,
        expected_commit: Seq<u8>,
        vrf_answer: Result<(), VrfError>,
        expected_handles: Seq<u64>,
    ) -> Result<(), VerifyError> {
        if self.vrf.commit@ != expected_commit {
            Err(VerifyError::CommitMismatch)
        } else if vrf_answer is Err {
            Err(VerifyError::BadVrf)
        } else if self.slot != self.vrf.slot {
            Err(VerifyError::SlotMismatch)
        } else if self.ordered_handles@ != expected_handles {
            Err(VerifyError::OrderingMismatch)
        } else {
            Ok(())
        }
    }

    /// What verification against a transaction set answers.
    pub open spec fn verification(self, txs: Seq<OrderableTx>) -> Result<(), VerifyError> {
        self.verdict(
            crate::vrf::commit_of(signatures(txs)),
            self.vrf.verification(),
            ordering_of(handles(txs), self.vrf.randomness@),
        )
    }

    /// The answer of a verification, from the commit over the transactions,
    /// the answer of the VRF verification, and the re-derived ordering.
    pub fn judge(
        &self,
        expected_commit: &[u8; 32],
        vrf_answer: Result<(), VrfError>,
        expected_handles: &Vec<u64>,
    ) -> (answer: Result<(), VerifyError>)
        ensures
            answer == self.verdict(expected_commit@, vrf_answer, expected_handles@),
            ({
                let committed = self.vrf.commit@ == expected_commit@;
                let in_slot = self.slot == self.vrf.slot;
                let in_order = self.ordered_handles@ == expected_handles@;
                &&& answer is Ok <==> committed && vrf_answer is Ok && in_slot && in_order
                &&& answer == Err::<(), VerifyError>(VerifyError::CommitMismatch) <==> !committed
                &&& answer == Err::<(), VerifyError>(VerifyError::BadVrf) <==> committed
                    && vrf_answer is Err
                &&& answer == Err::<(), VerifyError>(VerifyError::SlotMismatch) <==> committed
                    && vrf_answer is Ok && !in_slot
                &&& answer == Err::<(), VerifyError>(VerifyError::OrderingMismatch) <==> committed
                    && vrf_answer is Ok && in_slot && !in_order
            }),
    {
        if !crate::bytes::bytes_eq(expected_commit, &self.vrf.commit) {
            return Err(VerifyError::CommitMismatch);
        }
        if vrf_answer.is_err() {
            return Err(VerifyError::BadVrf);
        }
        if self.slot != self.vrf.slot {
            return Err(VerifyError::SlotMismatch);
        }
        let same = *expected_handles == self.ordered_handles;
        proof {
            if same {
                assert(expected_handles@ =~= self.ordered_handles@);
            }
        }
        if !same {
            return Err(VerifyError::OrderingMismatch);
        }
        Ok(())
    }
}

/// The commit over the transactions' signatures.
fn commit_over(txs: &[OrderableTx]) -> (commit: [u8; 32])
    ensures
        commit@ == crate::vrf::commit_of(signatures(txs@)),
{
    let mut sig_refs: Vec<&[u8]> = Vec::new();
    let mut i: usize = 0;
    while i < txs.len()
        invariant
            i <= txs@.len(),
            sig_refs@.len() == i,
            forall|j: int| 0 <= j < i ==> (#[trigger] sig_refs@[j])@ == txs@[j].signature@,
        decreases txs@.len() - i,
    {
        sig_refs.push(txs[i].signature.as_slice());
        i += 1;
    }
    proof {
        assert(crate::vrf::contents(sig_refs@) =~= signatures(txs@));
    }
    commit_hash(sig_refs.as_slice())
}

/// The transactions' handles in the order that `randomness` puts them in.
fn shuffled_handles(txs: &[OrderableTx], randomness: [u8; 32]) -> (shuffled: Vec<u64>)
    ensures
        shuffled@ == ordering_of(handles(txs@), randomness@),
        crate::shuffle::is_permutation(
            crate::shuffle::seeded_order(handles(txs@).len(), randomness@),
        ),
        crate::shuffle::seeded_order(handles(txs@).len(), randomness@).len() == txs@.len(),
{
    let mut shuffled: Vec<u64> = Vec::new();
    let mut i: usize = 0;
    while i < txs.len()
        invariant
            i <= txs@.len(),
            shuffled@.len() == i,
            forall|j: int| 0 <= j < i ==> #[trigger] shuffled@[j] == txs@[j].handle,
        decreases txs@.len() - i,
    {
        shuffled.push(txs[i].handle);
        i += 1;
    }
    proof {
        assert(shuffled@ =~= handles(txs@));
    }
    shuffle_with_seed(&mut shuffled, randomness);
    shuffled
}

proof fn lemma_ordering_by_index(txs: Seq<OrderableTx>, randomness: Seq<u8>)
    requires
        crate::shuffle::is_permutation(crate::shuffle::seeded_order(txs.len(), randomness)),
        crate::shuffle::seeded_order(txs.len(), randomness).len() == txs.len(),
    ensures
        handles(txs).len() == txs.len(),
        ordering_of(handles(txs), randomness).len() == txs.len(),
        forall|k: int|
            0 <= k < txs.len() ==> {
                let from = crate::shuffle::shuffle_order(txs.len(), (randomness, 0u64, 0u128))[k];
                0 <= from < txs.len() && #[trigger] ordering_of(handles(txs), randomness)[k]
                    == txs[from].handle
            },
        crate::shuffle::shuffle_order(txs.len(), (randomness, 0u64, 0u128)).no_duplicates(),
{
}

/// An ordering lists the transactions by the shuffle that the published
/// randomness seeds: the handle at each place is that of the transaction that
/// stood where the shuffle takes this place from.
pub proof fn ordering_follows_the_shuffle(
    secret: Seq<u8>,
    txs: Seq<OrderableTx>,
    slot: u64,
    result: OrderingResult,
    order: Seq<int>,
    k: int,
)
    requires
        orders_to(secret, txs, slot, result) || result.verification(txs) is Ok,
        order == crate::shuffle::shuffle_order(txs.len(), (result.vrf.randomness@, 0u64, 0u128)),
        order.len() == txs.len(),
        crate::shuffle::is_permutation(order),
        0 <= k < txs.len(),
    ensures
        result.ordered_handles@.len() == txs.len(),
        result.ordered_handles@[k] == txs[order[k]].handle,
{
    lemma_ordering_by_index(txs, result.vrf.randomness@);
}

/// What verifies was signed for: its commit is that of the transactions, its proof
/// is a signature of the named validator over its slot and that commit, and its
/// randomness is the digest of the proof.
pub proof fn accepted_ordering_is_proved(txs: Seq<OrderableTx>, result: OrderingResult)
    requires
        result.verification(txs) is Ok,
    ensures
        result.vrf.commit@ == crate::vrf::commit_of(
            txs.map_values(|tx: OrderableTx| tx.signature@),
        ),
        crate::identity::ed25519_accepts(
            result.vrf.pubkey@,
            vstd::bytes::spec_u64_to_le_bytes(result.slot) + crate::vrf::commit_of(
                txs.map_values(|tx: OrderableTx| tx.signature@),
            ),
            result.vrf.proof@,
        ),
        result.vrf.randomness@ == crate::digest::sha256(result.vrf.proof@),
        result.vrf.slot == result.slot,
{
    assert(signatures(txs) =~= txs.map_values(|tx: OrderableTx| tx.signature@));
}

/// An ordering is accepted for no transactions but those that it was made over:
/// where signatures have one length and digests of different preimages differ, a
/// result that verifies for two lists of transactions verifies for lists with the
/// same signatures, counted.
pub proof fn accepted_transactions_are_those_committed(
    a: Seq<OrderableTx>,
    b: Seq<OrderableTx>,
    len: nat,
    result: OrderingResult,
)
    requires
        result.verification(a) is Ok,
        result.verification(b) is Ok,
        len > 0,
        forall|i: int| 0 <= i < a.len() ==> (#[trigger] a[i]).signature@.len() == len,
        forall|i: int| 0 <= i < b.len() ==> (#[trigger] b[i]).signature@.len() == len,
        crate::vrf::commit_preimage(signatures(a)) != crate::vrf::commit_preimage(signatures(b))
            ==> crate::digest::sha256(crate::vrf::commit_preimage(signatures(a)))
            != crate::digest::sha256(crate::vrf::commit_preimage(signatures(b))),
    ensures
        a.map_values(|tx: OrderableTx| tx.signature@).to_multiset() == b.map_values(
            |tx: OrderableTx| tx.signature@,
        ).to_multiset(),
{
    assert(signatures(a) =~= a.map_values(|tx: OrderableTx| tx.signature@));
    assert(signatures(b) =~= b.map_values(|tx: OrderableTx| tx.signature@));
    crate::vrf::commit_tells_signatures_apart(signatures(a), signatures(b), len);
}

pub struct OozeOrderer<'a> {
    keypair: &'a Keypair,
}

impl<'a> OozeOrderer<'a> {
    /// The secret key that orderings are signed with.
    pub closed spec fn secret(&self) -> Seq<u8> {
        crate::identity::keypair_secret(*self.keypair)
    }

    pub fn new(keypair: &'a Keypair) -> (orderer: Self)
        ensures
            orderer.secret() == crate::identity::keypair_secret(*keypair),
    {
        Self { keypair }
    }

    /// Order a batch of transactions for the given slot.
    ///
    /// 1. Compute the commit over the transaction set (order-independent hash)
    /// 2. Evaluate the VRF over (slot, commit); only the validator can do this
    /// 3. Seed a ChaCha20 CSPRNG with the VRF randomness
    /// 4. Shuffle the handles
    /// 5. Return the handles and the proof
    ///
    /// Verifiable by anyone: recompute the commit, verify the VRF, re-shuffle,
    /// compare the ordering.
    pub fn order(&self, txs: &[OrderableTx], slot: u64) -> (result: OrderingResult)
        ensures
            orders_to(self.secret(), txs@, slot, result),
            result.ordered_handles@.to_multiset() == handles(txs@).to_multiset(),
            !crate::identity::commits_to_neutral_element(result.vrf.proof@)
                ==> result.verification(txs@) == Ok::<(), VerifyError>(()),
            result.slot == slot,
            result.tx_count == txs@.len(),
            result.vrf.slot == slot,
            result.vrf.commit@ == crate::vrf::commit_of(
                txs@.map_values(|tx: OrderableTx| tx.signature@),
            ),
            result.vrf.pubkey@ == crate::identity::ed25519_public_key(self.secret()),
            result.vrf.proof@ == crate::identity::ed25519_signature(
                self.secret(),
                vstd::bytes::spec_u64_to_le_bytes(slot) + result.vrf.commit@,
            ),
            result.vrf.randomness@ == crate::digest::sha256(result.vrf.proof@),
            result.ordered_handles@.len() == txs@.len(),
            forall|k: int|
                0 <= k < txs@.len() ==> {
                    let from = crate::shuffle::shuffle_order(
                        txs@.len(),
                        (result.vrf.randomness@, 0u64, 0u128),
                    )[k];
                    0 <= from < txs@.len() && #[trigger] result.ordered_handles@[k]
                        == txs@[from].handle
                },
            crate::shuffle::shuffle_order(
                txs@.len(),
                (result.vrf.randomness@, 0u64, 0u128),
            ).no_duplicates(),
    {
        let commit = commit_over(txs);
        let vrf = VrfOutput::evaluate(self.keypair, slot, commit);
        let ordered_handles = shuffled_handles(txs, vrf.randomness);
        proof {
            crate::shuffle::permuting_keeps_the_items(
                handles(txs@),
                crate::shuffle::seeded_order(handles(txs@).len(), vrf.randomness@),
            );
            lemma_ordering_by_index(txs@, vrf.randomness@);
        }
        OrderingResult { ordered_handles, vrf, slot, tx_count: txs.len() }
    }
}

/// Verify an OrderingResult: did the validator apply the randomness honestly,
/// or did they manipulate?
pub fn verify_ordering(txs: &[OrderableTx], result: &OrderingResult) -> (answer: Result<
    (),
    VerifyError,
>)
    ensures
        answer == result.verification(txs@),
        answer is Ok ==> result.ordered_handles@.to_multiset() == handles(txs@).to_multiset(),
        ({
            let order = crate::shuffle::shuffle_order(
                txs@.len(),
                (result.vrf.randomness@, 0u64, 0u128),
            );
            let committed = result.vrf.commit@ == crate::vrf::commit_of(
                txs@.map_values(|tx: OrderableTx| tx.signature@),
            );
            let proved = crate::identity::ed25519_accepts(
                result.vrf.pubkey@,
                vstd::bytes::spec_u64_to_le_bytes(result.vrf.slot) + result.vrf.commit@,
                result.vrf.proof@,
            ) && result.vrf.randomness@ == crate::digest::sha256(result.vrf.proof@);
            let in_slot = result.slot == result.vrf.slot;
            let in_order = result.ordered_handles@.len() == txs@.len() && forall|k: int|
                0 <= k < txs@.len() ==> 0 <= order[k] < txs@.len()
                    && #[trigger] result.ordered_handles@[k] == txs@[order[k]].handle;
            &&& answer is Ok <==> committed && proved && in_slot && in_order
            &&& answer == Err::<(), VerifyError>(VerifyError::CommitMismatch) <==> !committed
            &&& answer == Err::<(), VerifyError>(VerifyError::BadVrf) <==> committed && !proved
            &&& answer == Err::<(), VerifyError>(VerifyError::SlotMismatch) <==> committed && proved
                && !in_slot
            &&& answer == Err::<(), VerifyError>(VerifyError::OrderingMismatch) <==> committed
                && proved && in_slot && !in_order
        }),
{
    let expected_commit = commit_over(txs);
    let vrf_answer = result.vrf.verify();
    let expected = shuffled_handles(txs, result.vrf.randomness);
    proof {
        crate::shuffle::permuting_keeps_the_items(
            handles(txs@),
            crate::shuffle::seeded_order(handles(txs@).len(), result.vrf.randomness@),
        );
        lemma_ordering_by_index(txs@, result.vrf.randomness@);
        let order = crate::shuffle::shuffle_order(
            txs@.len(),
            (result.vrf.randomness@, 0u64, 0u128),
        );
        if result.ordered_handles@.len() == txs@.len() && forall|k: int|
            0 <= k < txs@.len() ==> 0 <= order[k] < txs@.len()
                && #[trigger] result.ordered_handles@[k] == txs@[order[k]].handle {
            assert(result.ordered_handles@ =~= expected@);
        }
    }
    result.judge(&expected_commit, vrf_answer, &expected)
}

/// Two transaction lists differ at most in their priority fees.
pub open spec fn same_but_fees(a: Seq<OrderableTx>, b: Seq<OrderableTx>) -> bool {
    &&& a.len() == b.len()
    &&& forall|i: int|
        0 <= i < a.len() ==> (#[trigger] a[i]).signature@ == b[i].signature@ && a[i].handle
            == b[i].handle
}

/// Priority fees do not affect the ordering, nor its verification.
pub proof fn fees_do_not_affect_ordering(
    secret: Seq<u8>,
    a: Seq<OrderableTx>,
    b: Seq<OrderableTx>,
    slot: u64,
    result: OrderingResult,
)
    requires
        same_but_fees(a, b),
    ensures
        orders_to(secret, a, slot, result) == orders_to(secret, b, slot, result),
        result.verification(a) == result.verification(b),
{
    assert(signatures(a) =~= signatures(b));
    assert(handles(a) =~= handles(b));
}

/// One key, transaction list and slot give one ordering.
pub proof fn ordering_is_deterministic(
    secret: Seq<u8>,
    txs: Seq<OrderableTx>,
    slot: u64,
    a: OrderingResult,
    b: OrderingResult,
)
    requires
        orders_to(secret, txs, slot, a),
        orders_to(secret, txs, slot, b),
    ensures
        a.ordered_handles@ == b.ordered_handles@,
        a.vrf.randomness@ == b.vrf.randomness@,
        a.vrf.proof@ == b.vrf.proof@,
        a.vrf.pubkey@ == b.vrf.pubkey@,
        a.vrf.commit@ == b.vrf.commit@,
        a.tx_count == b.tx_count,
{
    crate::vrf::evaluation_is_deterministic(
        secret,
        slot,
        crate::vrf::commit_of(signatures(txs)),
        a.vrf,
        b.vrf,
    );
}

/// A result that verifies is refused once its handles are in any other order,
/// or are any others.
pub proof fn tampered_ordering_is_refused(
    txs: Seq<OrderableTx>,
    honest: OrderingResult,
    tampered: OrderingResult,
)
    requires
        honest.verification(txs) is Ok,
        tampered.vrf == honest.vrf,
        tampered.slot == honest.slot,
        tampered.ordered_handles@ != honest.ordered_handles@,
    ensures
        tampered.verification(txs) == Err::<(), VerifyError>(VerifyError::OrderingMismatch),
{
}

/// A result is refused for every transaction list with another commit than the
/// one that its VRF output was evaluated for.
pub proof fn other_transactions_are_refused(
    secret: Seq<u8>,
    txs: Seq<OrderableTx>,
    slot: u64,
    result: OrderingResult,
    others: Seq<OrderableTx>,
)
    requires
        orders_to(secret, txs, slot, result),
        crate::vrf::commit_of(signatures(others)) != crate::vrf::commit_of(signatures(txs)),
    ensures
        result.verification(others) == Err::<(), VerifyError>(VerifyError::CommitMismatch),
{
}

/// A result that verifies is refused once it claims another slot.
pub proof fn other_slot_is_refused(
    txs: Seq<OrderableTx>,
    honest: OrderingResult,
    moved: OrderingResult,
)
    requires
        honest.verification(txs) is Ok,
        moved.vrf == honest.vrf,
        moved.slot != honest.slot,
    ensures
        moved.verification(txs) == Err::<(), VerifyError>(VerifyError::SlotMismatch),
{
}

/// A result over the right transactions is refused if its VRF output is.
pub proof fn bad_vrf_is_refused(txs: Seq<OrderableTx>, result: OrderingResult)
    requires
        result.vrf.commit@ == crate::vrf::commit_of(signatures(txs)),
        result.vrf.verification() is Err,
    ensures
        result.verification(txs) == Err::<(), VerifyError>(VerifyError::BadVrf),
{
}

/// Randomness leaves no choice of the order: of all results with one VRF
/// randomness, verification accepts one order of the transactions.
pub proof fn one_ordering_is_accepted(
    txs: Seq<OrderableTx>,
    a: OrderingResult,
    b: OrderingResult,
)
    requires
        a.verification(txs) is Ok,
        b.verification(txs) is Ok,
        a.vrf.randomness@ == b.vrf.randomness@,
    ensures
        a.ordered_handles@ == b.ordered_handles@,
{
}

} // verus!
