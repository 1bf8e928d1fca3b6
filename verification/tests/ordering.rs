use ooze_ordering::{
    commit_hash, verify_ordering, OozeOrderer, OrderableTx, OrderingResult, VerifyError, VrfError,
};
use solana_keypair::Keypair;

fn mk_tx(handle: u64) -> OrderableTx {
    let mut sig = vec![0u8; 64];
    sig[..8].copy_from_slice(&handle.to_le_bytes());
    OrderableTx {
        signature: sig,
        handle,
        priority_fee: 5000,
    }
}

fn honest() -> (Vec<OrderableTx>, OrderingResult) {
    let keypair = Keypair::new_from_array([1u8; 32]);
    let txs: Vec<OrderableTx> = (0..8).map(mk_tx).collect();
    let result = OozeOrderer::new(&keypair).order(&txs, 100);
    (txs, result)
}

#[test]
fn ordering_is_deterministic_for_same_keys() {
    let keypair = Keypair::new();
    let orderer = OozeOrderer::new(&keypair);
    let txs: Vec<_> = (0..10).map(mk_tx).collect();
    let r1 = orderer.order(&txs, 100);
    let r2 = orderer.order(&txs, 100);
    assert_eq!(r1.ordered_handles, r2.ordered_handles);
}

#[test]
fn different_slots_produce_different_orderings() {
    let keypair = Keypair::new();
    let orderer = OozeOrderer::new(&keypair);
    let txs: Vec<_> = (0..20).map(mk_tx).collect();
    let r1 = orderer.order(&txs, 100);
    let r2 = orderer.order(&txs, 101);
    assert_ne!(r1.ordered_handles, r2.ordered_handles);
}

#[test]
fn verify_accepts_honest_ordering() {
    let keypair = Keypair::new();
    let orderer = OozeOrderer::new(&keypair);
    let txs: Vec<_> = (0..15).map(mk_tx).collect();
    let result = orderer.order(&txs, 500);
    assert!(verify_ordering(&txs, &result).is_ok());
}

#[test]
fn verify_rejects_tampered_ordering() {
    let keypair = Keypair::new();
    let orderer = OozeOrderer::new(&keypair);
    let txs: Vec<_> = (0..15).map(mk_tx).collect();
    let mut result = orderer.order(&txs, 500);
    result.ordered_handles.swap(0, 5);
    assert!(matches!(
        verify_ordering(&txs, &result),
        Err(VerifyError::OrderingMismatch)
    ));
}

#[test]
fn verify_rejects_injected_tx() {
    let keypair = Keypair::new();
    let orderer = OozeOrderer::new(&keypair);
    let txs: Vec<_> = (0..10).map(mk_tx).collect();
    let result = orderer.order(&txs, 500);
    let mut tampered_txs = txs.clone();
    tampered_txs.push(mk_tx(99));
    assert!(matches!(
        verify_ordering(&tampered_txs, &result),
        Err(VerifyError::CommitMismatch)
    ));
}

#[test]
fn priority_fee_does_not_affect_ordering() {
    let keypair = Keypair::new();
    let orderer = OozeOrderer::new(&keypair);
    let txs_low_fee: Vec<_> = (0..10).map(mk_tx).collect();
    let mut txs_high_fee = txs_low_fee.clone();
    for t in &mut txs_high_fee {
        t.priority_fee = 100_000_000;
    }
    let r1 = orderer.order(&txs_low_fee, 77);
    let r2 = orderer.order(&txs_high_fee, 77);
    assert_eq!(r1.ordered_handles, r2.ordered_handles);
}

#[test]
fn ordering_has_known_value() {
    let (txs, result) = honest();
    assert_eq!(result.ordered_handles, vec![0, 3, 5, 4, 1, 6, 2, 7]);
    assert_eq!(result.slot, 100);
    assert_eq!(result.vrf.slot, 100);
    assert_eq!(result.tx_count, 8);
    assert_eq!(
        result.vrf.commit,
        [
            0x74, 0x12, 0x75, 0x26, 0x4d, 0x4c, 0x9b, 0x6f, 0x08, 0x73, 0x39, 0x68, 0x90, 0x43,
            0xcb, 0x88, 0xd8, 0x76, 0xba, 0x97, 0xcf, 0x78, 0x39, 0x50, 0xd5, 0x94, 0x9f, 0x6a,
            0x9b, 0x08, 0xe5, 0xdb,
        ]
    );
    assert_eq!(verify_ordering(&txs, &result), Ok(()));
}

#[test]
fn empty_ordering_verifies() {
    let keypair = Keypair::new_from_array([1u8; 32]);
    let result = OozeOrderer::new(&keypair).order(&[], 9);
    assert!(result.ordered_handles.is_empty());
    assert_eq!(result.tx_count, 0);
    assert_eq!(result.slot, 9);
    assert_eq!(result.vrf.commit, commit_hash(&[]));
    assert_eq!(verify_ordering(&[], &result), Ok(()));
}

#[test]
fn single_transaction_keeps_its_place() {
    let keypair = Keypair::new_from_array([1u8; 32]);
    let result = OozeOrderer::new(&keypair).order(&[mk_tx(7)], 9);
    assert_eq!(result.ordered_handles, vec![7]);
    assert_eq!(result.tx_count, 1);
}

#[test]
fn ordering_keeps_every_handle() {
    let (_, result) = honest();
    let mut sorted = result.ordered_handles.clone();
    sorted.sort();
    assert_eq!(sorted, (0..8).collect::<Vec<u64>>());
}

#[test]
fn repeated_handles_are_kept() {
    let keypair = Keypair::new_from_array([1u8; 32]);
    let txs = vec![mk_tx(4), mk_tx(4), mk_tx(6)];
    let result = OozeOrderer::new(&keypair).order(&txs, 1);
    let mut sorted = result.ordered_handles.clone();
    sorted.sort();
    assert_eq!(sorted, vec![4, 4, 6]);
    assert_eq!(verify_ordering(&txs, &result), Ok(()));
}

#[test]
fn dropped_transaction_is_refused() {
    let (txs, result) = honest();
    assert_eq!(
        verify_ordering(&txs[1..], &result),
        Err(VerifyError::CommitMismatch)
    );
}

#[test]
fn bad_randomness_is_refused() {
    let (txs, mut result) = honest();
    result.vrf.randomness[0] ^= 1;
    assert_eq!(verify_ordering(&txs, &result), Err(VerifyError::BadVrf));
}

#[test]
fn bad_proof_is_refused() {
    let (txs, mut result) = honest();
    result.vrf.proof[40] ^= 1;
    assert_eq!(verify_ordering(&txs, &result), Err(VerifyError::BadVrf));
}

#[test]
fn other_slot_is_refused() {
    let (txs, mut result) = honest();
    result.slot = 101;
    assert_eq!(verify_ordering(&txs, &result), Err(VerifyError::SlotMismatch));
}

#[test]
fn truncated_ordering_is_refused() {
    let (txs, mut result) = honest();
    result.ordered_handles.pop();
    assert_eq!(
        verify_ordering(&txs, &result),
        Err(VerifyError::OrderingMismatch)
    );
}

#[test]
fn transaction_count_is_not_verified() {
    let (txs, mut result) = honest();
    result.tx_count = 3;
    assert_eq!(verify_ordering(&txs, &result), Ok(()));
}

#[test]
fn verification_ignores_fees() {
    let (mut txs, result) = honest();
    for tx in &mut txs {
        tx.priority_fee = 1;
    }
    assert_eq!(verify_ordering(&txs, &result), Ok(()));
}

#[test]
fn judge_reports_the_first_fault() {
    let (_, mut result) = honest();
    let commit = result.vrf.commit;
    let handles = result.ordered_handles.clone();
    let others: Vec<u64> = vec![1];
    assert_eq!(result.judge(&commit, Ok(()), &handles), Ok(()));
    assert_eq!(
        result.judge(&commit, Ok(()), &others),
        Err(VerifyError::OrderingMismatch)
    );
    result.slot = 7;
    assert_eq!(
        result.judge(&commit, Ok(()), &others),
        Err(VerifyError::SlotMismatch)
    );
    assert_eq!(
        result.judge(&commit, Err(VrfError::BadSignature), &others),
        Err(VerifyError::BadVrf)
    );
    assert_eq!(
        result.judge(&[0u8; 32], Err(VrfError::BadSignature), &others),
        Err(VerifyError::CommitMismatch)
    );
}
