use ooze_ordering::bytes::{bytes_eq, bytes_le};
use ooze_ordering::digest::digest_of;
use ooze_ordering::shuffle::shuffle_with_seed;
use ooze_ordering::sorting::sort;
use ooze_ordering::{commit_hash, VrfError, VrfOutput};
use solana_keypair::Keypair;

const EMPTY_DIGEST: [u8; 32] = [
    0xe3, 0xb0, 0xc4, 0x42, 0x98, 0xfc, 0x1c, 0x14, 0x9a, 0xfb, 0xf4, 0xc8, 0x99, 0x6f, 0xb9, 0x24,
    0x27, 0xae, 0x41, 0xe4, 0x64, 0x9b, 0x93, 0x4c, 0xa4, 0x95, 0x99, 0x1b, 0x78, 0x52, 0xb8, 0x55,
];

const ABC_DIGEST: [u8; 32] = [
    0xba, 0x78, 0x16, 0xbf, 0x8f, 0x01, 0xcf, 0xea, 0x41, 0x41, 0x40, 0xde, 0x5d, 0xae, 0x22, 0x23,
    0xb0, 0x03, 0x61, 0xa3, 0x96, 0x17, 0x7a, 0x9c, 0xb4, 0x10, 0xff, 0x61, 0xf2, 0x00, 0x15, 0xad,
];

#[test]
fn vrf_roundtrip() {
    let keypair = Keypair::new();
    let out = VrfOutput::evaluate(&keypair, 12345, [7u8; 32]);
    assert!(out.verify().is_ok());
}

#[test]
fn vrf_tampered_randomness_fails() {
    let keypair = Keypair::new();
    let mut out = VrfOutput::evaluate(&keypair, 1, [0u8; 32]);
    out.randomness[0] ^= 1;
    assert!(matches!(out.verify(), Err(VrfError::RandomnessMismatch)));
}

#[test]
fn vrf_tampered_proof_fails() {
    let keypair = Keypair::new();
    let mut out = VrfOutput::evaluate(&keypair, 1, [0u8; 32]);
    out.proof[0] ^= 1;
    assert!(out.verify().is_err());
}

#[test]
fn vrf_is_deterministic() {
    let keypair = Keypair::new();
    let a = VrfOutput::evaluate(&keypair, 42, [9u8; 32]);
    let b = VrfOutput::evaluate(&keypair, 42, [9u8; 32]);
    assert_eq!(a.randomness, b.randomness);
}

#[test]
fn commit_hash_order_independent() {
    let s1 = [1u8; 64];
    let s2 = [2u8; 64];
    let a = commit_hash(&[&s1[..], &s2[..]]);
    let b = commit_hash(&[&s2[..], &s1[..]]);
    assert_eq!(a, b);
}

#[test]
fn evaluation_has_known_value() {
    let keypair = Keypair::new_from_array([1u8; 32]);
    let out = VrfOutput::evaluate(&keypair, 12345, [7u8; 32]);
    assert_eq!(out.slot, 12345);
    assert_eq!(out.commit, [7u8; 32]);
    assert_eq!(
        out.pubkey,
        [
            0x8a, 0x88, 0xe3, 0xdd, 0x74, 0x09, 0xf1, 0x95, 0xfd, 0x52, 0xdb, 0x2d, 0x3c, 0xba,
            0x5d, 0x72, 0xca, 0x67, 0x09, 0xbf, 0x1d, 0x94, 0x12, 0x1b, 0xf3, 0x74, 0x88, 0x01,
            0xb4, 0x0f, 0x6f, 0x5c,
        ]
    );
    assert_eq!(
        out.proof,
        [
            0x4d, 0x22, 0x16, 0x48, 0x5c, 0xd7, 0x20, 0x08, 0x84, 0xa6, 0x47, 0xdc, 0x5d, 0x60,
            0xba, 0xda, 0x02, 0xe7, 0x0e, 0x3e, 0x96, 0x6c, 0xf1, 0x3a, 0x4f, 0x4c, 0x96, 0xb0,
            0x72, 0x13, 0x56, 0xaf, 0x00, 0xbc, 0x9f, 0x03, 0x42, 0x59, 0x57, 0x51, 0x7f, 0xac,
            0xc2, 0xbf, 0x21, 0x8b, 0x21, 0x14, 0xa4, 0xe9, 0xfd, 0xc8, 0xbe, 0x18, 0xda, 0x60,
            0xa6, 0x63, 0xd9, 0x5a, 0x2e, 0x7c, 0x81, 0x05,
        ]
    );
    assert_eq!(
        out.randomness,
        [
            0x61, 0x89, 0xad, 0x71, 0xf4, 0x3f, 0x5e, 0xe7, 0xa6, 0xe7, 0xb9, 0xea, 0x0d, 0xeb,
            0x0f, 0x28, 0x7b, 0x9a, 0xce, 0x32, 0x01, 0xbd, 0xfa, 0x36, 0xd1, 0x1c, 0x63, 0x62,
            0xb2, 0xc8, 0x64, 0x84,
        ]
    );
    assert_eq!(out.randomness, digest_of(&out.proof));
    assert_eq!(out.verify(), Ok(()));
}

#[test]
fn other_slot_or_commit_has_bad_signature() {
    let keypair = Keypair::new_from_array([1u8; 32]);
    let honest = VrfOutput::evaluate(&keypair, 12345, [7u8; 32]);
    let mut moved = honest.clone();
    moved.slot = 12346;
    assert_eq!(moved.verify(), Err(VrfError::BadSignature));
    let mut recommitted = honest.clone();
    recommitted.commit[31] ^= 1;
    assert_eq!(recommitted.verify(), Err(VrfError::BadSignature));
}

#[test]
fn other_validator_has_bad_signature() {
    let mut out = VrfOutput::evaluate(&Keypair::new_from_array([1u8; 32]), 5, [3u8; 32]);
    out.pubkey = VrfOutput::evaluate(&Keypair::new_from_array([2u8; 32]), 5, [3u8; 32]).pubkey;
    assert_eq!(out.verify(), Err(VrfError::BadSignature));
}

#[test]
fn judge_prefers_bad_signature() {
    let out = VrfOutput::evaluate(&Keypair::new_from_array([1u8; 32]), 5, [3u8; 32]);
    let digest = out.randomness;
    assert_eq!(out.judge(true, &digest), Ok(()));
    assert_eq!(out.judge(false, &digest), Err(VrfError::BadSignature));
    assert_eq!(out.judge(false, &[0u8; 32]), Err(VrfError::BadSignature));
    assert_eq!(out.judge(true, &[0u8; 32]), Err(VrfError::RandomnessMismatch));
}

#[test]
fn message_is_slot_then_commit() {
    let message = VrfOutput::message(0x0102030405060708, &[9u8; 32]);
    assert_eq!(&message[..8], &[8, 7, 6, 5, 4, 3, 2, 1]);
    assert_eq!(&message[8..], &[9u8; 32]);
}

#[test]
fn messages_differ_with_slot_and_commit() {
    let base = VrfOutput::message(1, &[0u8; 32]);
    assert_ne!(base, VrfOutput::message(2, &[0u8; 32]));
    assert_ne!(base, VrfOutput::message(1, &[1u8; 32]));
}

#[test]
fn commit_of_nothing_is_empty_digest() {
    assert_eq!(commit_hash(&[]), EMPTY_DIGEST);
    assert_eq!(commit_hash(&[&[], &[]]), EMPTY_DIGEST);
}

#[test]
fn commit_hashes_sorted_concatenation() {
    assert_eq!(commit_hash(&[b"abc"]), ABC_DIGEST);
    assert_eq!(commit_hash(&[b"c", b"ab"]), ABC_DIGEST);
    assert_eq!(commit_hash(&[b"b", b"c", b"a"]), ABC_DIGEST);
    assert_ne!(commit_hash(&[b"cab"]), ABC_DIGEST);
}

#[test]
fn commit_counts_repetitions() {
    assert_ne!(commit_hash(&[b"abc", b"abc"]), ABC_DIGEST);
}

#[test]
fn digest_has_known_values() {
    assert_eq!(digest_of(b""), EMPTY_DIGEST);
    assert_eq!(digest_of(b"abc"), ABC_DIGEST);
}

#[test]
fn sort_is_lexicographic() {
    let items: Vec<&[u8]> = vec![b"b", b"", b"ab", b"a", b"b", b"aa"];
    let expected: Vec<&[u8]> = vec![b"", b"a", b"aa", b"ab", b"b", b"b"];
    assert_eq!(sort(&items), expected);
}

#[test]
fn bytes_compare_by_first_difference() {
    assert!(bytes_le(b"", b"a"));
    assert!(bytes_le(b"a", b"ab"));
    assert!(!bytes_le(b"ab", b"a"));
    assert!(bytes_le(b"az", b"b"));
    assert!(bytes_le(b"same", b"same"));
    assert!(bytes_eq(b"same", b"same"));
    assert!(!bytes_eq(b"same", b"sama"));
    assert!(!bytes_eq(b"same", b"sam"));
}

#[test]
fn shuffle_has_known_orders() {
    let mut five: Vec<u64> = (0..5).collect();
    shuffle_with_seed(&mut five, [0x2au8; 32]);
    assert_eq!(five, vec![3, 4, 2, 0, 1]);
    let mut twenty: Vec<u64> = (0..20).collect();
    shuffle_with_seed(&mut twenty, [0x2au8; 32]);
    assert_eq!(
        twenty,
        vec![7, 18, 2, 12, 13, 8, 16, 19, 4, 5, 0, 17, 14, 15, 11, 6, 1, 10, 9, 3]
    );
}

#[test]
fn shuffle_moves_places_not_values() {
    let mut letters: Vec<char> = vec!['a', 'b', 'c', 'd', 'e'];
    shuffle_with_seed(&mut letters, [0x2au8; 32]);
    assert_eq!(letters, vec!['d', 'e', 'c', 'a', 'b']);
    let mut one: Vec<char> = vec!['a'];
    shuffle_with_seed(&mut one, [0x2au8; 32]);
    assert_eq!(one, vec!['a']);
    let mut none: Vec<char> = vec![];
    shuffle_with_seed(&mut none, [0x2au8; 32]);
    assert!(none.is_empty());
}
