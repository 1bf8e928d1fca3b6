//! Seeded shuffling: a ChaCha20 generator of the `rand_chacha` crate drives the
//! slice shuffle of the `rand` crate.
use rand::seq::SliceRandom;
use rand::SeedableRng;
use rand_chacha::ChaCha20Rng;
use vstd::prelude::*;

verus! {

/// A ChaCha20 random number generator.
#[verifier::external_type_specification]
#[verifier::external_body]
pub struct ExChaCha20Rng(ChaCha20Rng);

/// What determines a generator's further output: its seed, its stream number
/// and its position in the stream.
pub uninterp spec fn rng_state(rng: ChaCha20Rng) -> (Seq<u8>, u64, u128);

/// The order in which a shuffle of `len` items, driven by a generator in the
/// given state, lays the items out: the entry at each place is the index at
/// which the item stood before.
pub uninterp spec fn shuffle_order(len: nat, state: (Seq<u8>, u64, u128)) -> Seq<int>;

/// The order in which a shuffle driven by a fresh generator with the given
/// seed lays out `len` items.
pub open spec fn seeded_order(len: nat, seed: Seq<u8>) -> Seq<int> {
    shuffle_order(len, (seed, 0u64, 0u128))
}

/// `order` lists each of the indices below its length exactly once.
pub open spec fn is_permutation(order: Seq<int>) -> bool {
    &&& forall|i: int| 0 <= i < order.len() ==> 0 <= #[trigger] order[i] < order.len()
    &&& order.no_duplicates()
}

/// The items in the given order.
pub open spec fn permute<T>(items: Seq<T>, order: Seq<int>) -> Seq<T> {
    Seq::new(order.len(), |i: int| items[order[i]])
}

/// `after` is `before` rearranged by `order`, which is a permutation of the
/// places in `before`.
pub open spec fn rearranged<T>(before: Seq<T>, after: Seq<T>, order: Seq<int>) -> bool {
    &&& order.len() == before.len()
    &&& is_permutation(order)
    &&& after == permute(before, order)
}

/// Rearranging keeps every item, as often as it occurs.
pub proof fn permuting_keeps_the_items<T>(items: Seq<T>, order: Seq<int>)
    requires
        order.len() == items.len(),
        is_permutation(order),
    ensures
        permute(items, order).to_multiset() == items.to_multiset(),
    decreases items.len(),
{
    broadcast use vstd::seq_lib::group_to_multiset_ensures;

    let permuted = permute(items, order);
    if items.len() == 0 {
        assert(permuted =~= items);
    } else {
        let last = items.len() - 1;
        lemma_permutation_reaches(order, last);
        let k = choose|k: int| 0 <= k < order.len() && order[k] == last;
        let rest = order.remove(k);
        assert forall|i: int| 0 <= i < rest.len() implies 0 <= #[trigger] rest[i] < rest.len() by {
            assert(rest[i] == if i < k { order[i] } else { order[i + 1] });
        }
        assert(rest.no_duplicates());
        permuting_keeps_the_items(items.drop_last(), rest);
        assert(permute(items.drop_last(), rest) =~= permuted.remove(k));
        assert(items =~= items.drop_last().push(items[last]));
        assert(permuted[k] == items[last]);
        assert(permuted.contains(items[last]));
        assert(permuted.to_multiset() =~= permuted.remove(k).to_multiset().insert(items[last]));
    }
}

/// A permutation reaches every place.
proof fn lemma_permutation_reaches(order: Seq<int>, place: int)
    requires
        is_permutation(order),
        0 <= place < order.len(),
    ensures
        exists|k: int| 0 <= k < order.len() && order[k] == place,
{
    let reached = order.to_set();
    let places = vstd::set_lib::set_int_range(0, order.len() as int);
    order.unique_seq_to_set();
    vstd::set_lib::lemma_int_range(0, order.len() as int);
    assert(reached.subset_of(places)) by {
        assert forall|p: int| reached.contains(p) implies places.contains(p) by {
            let i = choose|i: int| 0 <= i < order.len() && order[i] == p;
            assert(order[i] == p);
        }
    }
    vstd::set_lib::lemma_subset_equality(reached, places);
    assert(reached.contains(place));
}

/// `ChaCha20Rng::from_seed`: a generator with that seed, at the start of the
/// stream numbered zero.
#[verifier::external_body]
pub(crate) fn rng_from_seed(seed: [u8; 32]) -> (rng: ChaCha20Rng)
    ensures
        rng_state(rng) == (seed@, 0u64, 0u128),
{
    ChaCha20Rng::from_seed(seed)
}

/// `SliceRandom::shuffle`: rearranges the items. Where each item goes depends
/// on how many there are and on the state of the generator, not on the items.
#[verifier::external_body]
pub(crate) fn shuffle<T>(items: &mut Vec<T>, mut rng: ChaCha20Rng)
    ensures
        rearranged(
            old(items)@,
            final(items)@,
            shuffle_order(old(items)@.len(), rng_state(rng)),
        ),
{
    items.as_mut_slice().shuffle(&mut rng)
}

/// Shuffles the items with a fresh generator.
pub fn shuffle_with_seed<T>(items: &mut Vec<T>, seed: [u8; 32])
    ensures
        rearranged(old(items)@, final(items)@, seeded_order(old(items)@.len(), seed@)),
        final(items)@.len() == old(items)@.len(),
        shuffle_order(old(items)@.len(), (seed@, 0u64, 0u128)).len() == old(items)@.len(),
        forall|k: int|
            0 <= k < final(items)@.len() ==> {
                let from = shuffle_order(old(items)@.len(), (seed@, 0u64, 0u128))[k];
                0 <= from < old(items)@.len() && #[trigger] final(items)@[k] == old(items)@[from]
            },
        shuffle_order(old(items)@.len(), (seed@, 0u64, 0u128)).no_duplicates(),
{
    let rng = rng_from_seed(seed);
    shuffle(items, rng);
}

} // verus!
