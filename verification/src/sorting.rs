//! Merge sort over values that are ranked by a key.
use vstd::prelude::*;

verus! {

/// A value that is ranked by a key, with a total order on the keys.
pub trait Ranked: Copy {
    type Key;

    spec fn key(self) -> Self::Key;

    spec fn key_le(a: Self::Key, b: Self::Key) -> bool;

    proof fn key_le_is_total_order()
        ensures
            vstd::relations::total_ordering(|a: Self::Key, b: Self::Key| Self::key_le(a, b)),
    ;

    fn ranks_le(&self, other: &Self) -> (le: bool)
        ensures
            le == Self::key_le(self.key(), other.key()),
    ;
}

/// The keys of the items, in the items' order.
pub open spec fn keys<T: Ranked>(items: Seq<T>) -> Seq<T::Key> {
    items.map_values(|item: T| item.key())
}

/// The keys of the items, in ascending order.
pub open spec fn sorted_keys<T: Ranked>(items: Seq<T>) -> Seq<T::Key> {
    keys(items).sort_by(|a: T::Key, b: T::Key| T::key_le(a, b))
}

impl<'a> Ranked for &'a [u8] {
    type Key = Seq<u8>;

    open spec fn key(self) -> Seq<u8> {
        self@
    }

    open spec fn key_le(a: Seq<u8>, b: Seq<u8>) -> bool {
        crate::bytes::lex_le(a, b)
    }

    proof fn key_le_is_total_order() {
        crate::bytes::lex_le_is_total_order();
        assert((|a: Seq<u8>, b: Seq<u8>| Self::key_le(a, b)) =~= (|a: Seq<u8>, b: Seq<u8>|
            crate::bytes::lex_le(a, b)));
    }

    fn ranks_le(&self, other: &Self) -> (le: bool) {
        crate::bytes::bytes_le(*self, *other)
    }
}

/// Merges two ascending runs into one.
fn merge<T: Ranked>(left: &Vec<T>, right: &Vec<T>) -> (merged: Vec<T>)
    requires
        vstd::relations::sorted_by(keys(left@), |a: T::Key, b: T::Key| T::key_le(a, b)),
        vstd::relations::sorted_by(keys(right@), |a: T::Key, b: T::Key| T::key_le(a, b)),
    ensures
        vstd::relations::sorted_by(keys(merged@), |a: T::Key, b: T::Key| T::key_le(a, b)),
        merged@.to_multiset() == left@.to_multiset().add(right@.to_multiset()),
{
    let mut merged: Vec<T> = Vec::new();
    let mut i: usize = 0;
    let mut j: usize = 0;
    let ghost leq = |a: T::Key, b: T::Key| T::key_le(a, b);
    proof {
        T::key_le_is_total_order();
        broadcast use vstd::seq_lib::group_to_multiset_ensures;
        assert(left@.take(0) =~= Seq::<T>::empty());
        assert(right@.take(0) =~= Seq::<T>::empty());
        assert(merged@.to_multiset() =~= left@.take(0).to_multiset().add(right@.take(0).to_multiset()));
    }
    while i < left.len() || j < right.len()
        invariant
            i <= left@.len(),
            j <= right@.len(),
            leq == (|a: T::Key, b: T::Key| T::key_le(a, b)),
            vstd::relations::total_ordering(leq),
            vstd::relations::sorted_by(keys(left@), leq),
            vstd::relations::sorted_by(keys(right@), leq),
            vstd::relations::sorted_by(keys(merged@), leq),
            merged@.to_multiset() == left@.take(i as int).to_multiset().add(
                right@.take(j as int).to_multiset(),
            ),
            forall|m: int, l: int|
                0 <= m < merged@.len() && i <= l < left@.len() ==> #[trigger] T::key_le(
                    merged@[m].key(),
                    left@[l].key(),
                ),
            forall|m: int, r: int|
                0 <= m < merged@.len() && j <= r < right@.len() ==> #[trigger] T::key_le(
                    merged@[m].key(),
                    right@[r].key(),
                ),
        decreases left@.len() - i + right@.len() - j,
    {
        broadcast use vstd::seq_lib::group_to_multiset_ensures;

        let take_left: bool = if i >= left.len() {
            false
        } else if j >= right.len() {
            true
        } else {
            left[i].ranks_le(&right[j])
        };
        let ghost before = merged@;
        if take_left {
            let item = left[i];
            merged.push(item);
            proof {
                assert(left@.take(i + 1) =~= left@.take(i as int).push(item));
                assert forall|l: int| i < l < left@.len() implies #[trigger] T::key_le(
                    item.key(),
                    left@[l].key(),
                ) by {
                    assert(leq(keys(left@)[i as int], keys(left@)[l]));
                }
                assert forall|r: int| j <= r < right@.len() implies #[trigger] T::key_le(
                    item.key(),
                    right@[r].key(),
                ) by {
                    if j < r {
                        assert(leq(keys(right@)[j as int], keys(right@)[r]));
                    } else {
                        assert(leq(right@[j as int].key(), right@[j as int].key()));
                    }
                    assert(leq(item.key(), right@[j as int].key()));
                    assert(leq(right@[j as int].key(), right@[r].key()));
                    assert(leq(item.key(), right@[r].key()));
                }
                assert(merged@.to_multiset() =~= left@.take(i + 1).to_multiset().add(
                    right@.take(j as int).to_multiset(),
                ));
            }
            i += 1;
        } else {
            let item = right[j];
            merged.push(item);
            proof {
                assert(right@.take(j + 1) =~= right@.take(j as int).push(item));
                assert forall|r: int| j < r < right@.len() implies #[trigger] T::key_le(
                    item.key(),
                    right@[r].key(),
                ) by {
                    assert(leq(keys(right@)[j as int], keys(right@)[r]));
                }
                assert forall|l: int| i <= l < left@.len() implies #[trigger] T::key_le(
                    item.key(),
                    left@[l].key(),
                ) by {
                    assert(leq(left@[i as int].key(), item.key()) || leq(
                        item.key(),
                        left@[i as int].key(),
                    ));
                    if i < l {
                        assert(leq(keys(left@)[i as int], keys(left@)[l]));
                    } else {
                        assert(leq(left@[i as int].key(), left@[i as int].key()));
                    }
                    assert(leq(item.key(), left@[i as int].key()));
                    assert(leq(left@[i as int].key(), left@[l].key()));
                    assert(leq(item.key(), left@[l].key()));
                }
                assert(merged@.to_multiset() =~= left@.take(i as int).to_multiset().add(
                    right@.take(j + 1).to_multiset(),
                ));
            }
            j += 1;
        }
        proof {
            assert forall|a: int, b: int| 0 <= a < b < merged@.len() implies #[trigger] leq(
                keys(merged@)[a],
                keys(merged@)[b],
            ) by {
                if b < before.len() {
                    assert(leq(keys(before)[a], keys(before)[b]));
                }
            }
        }
    }
    proof {
        assert(left@.take(i as int) =~= left@);
        assert(right@.take(j as int) =~= right@);
    }
    merged
}

/// Sorts the items from `from` up to `to`.
fn sort_range<T: Ranked>(items: &[T], from: usize, to: usize) -> (sorted: Vec<T>)
    requires
        from <= to <= items@.len(),
    ensures
        vstd::relations::sorted_by(keys(sorted@), |a: T::Key, b: T::Key| T::key_le(a, b)),
        sorted@.to_multiset() == items@.subrange(from as int, to as int).to_multiset(),
    decreases to - from,
{
    if to - from <= 1 {
        let mut sorted: Vec<T> = Vec::new();
        if from < to {
            sorted.push(items[from]);
        }
        assert(sorted@ =~= items@.subrange(from as int, to as int));
        sorted
    } else {
        let middle: usize = from + (to - from) / 2;
        let left = sort_range(items, from, middle);
        let right = sort_range(items, middle, to);
        proof {
            let lower = items@.subrange(from as int, middle as int);
            let upper = items@.subrange(middle as int, to as int);
            vstd::seq_lib::lemma_multiset_commutative(lower, upper);
            assert(lower + upper =~= items@.subrange(from as int, to as int));
        }
        merge(&left, &right)
    }
}

/// Applying a function to each of two sequences with the same items, counted,
/// gives sequences with the same items, counted.
pub proof fn mapping_keeps_same_items<A, B>(a: Seq<A>, b: Seq<A>, f: spec_fn(A) -> B)
    requires
        a.to_multiset() == b.to_multiset(),
    ensures
        a.map_values(f).to_multiset() == b.map_values(f).to_multiset(),
    decreases a.len(),
{
    broadcast use vstd::seq_lib::group_to_multiset_ensures;

    assert(a.len() == b.len()) by {
        vstd::seq_lib::to_multiset_len(a);
        vstd::seq_lib::to_multiset_len(b);
    }
    let fa = a.map_values(f);
    let fb = b.map_values(f);
    if a.len() == 0 {
        assert(fa =~= fb);
    } else {
        let x = a[0];
        assert(a.to_multiset().count(x) > 0) by {
            assert(a.contains(x));
        }
        assert(b.contains(x));
        let k = b.index_of(x);
        assert(0 <= k < b.len() && b[k] == x);
        mapping_keeps_same_items(a.remove(0), b.remove(k), f);
        assert(fa.remove(0) =~= a.remove(0).map_values(f));
        assert(fb.remove(k) =~= b.remove(k).map_values(f));
        assert(fa[0] == f(x));
        assert(fb[k] == f(x));
        assert(fa.contains(f(x)));
        assert(fb.contains(f(x)));
        assert(fa.to_multiset().count(f(x)) > 0);
        assert(fb.to_multiset().count(f(x)) > 0);
        assert(fa.to_multiset() =~= fa.to_multiset().remove(f(x)).insert(f(x)));
        assert(fb.to_multiset() =~= fb.to_multiset().remove(f(x)).insert(f(x)));
    }
}

/// Sorts the items by their keys, in ascending order.
pub fn sort<T: Ranked>(items: &[T]) -> (sorted: Vec<T>)
    ensures
        keys(sorted@) == sorted_keys(items@),
        sorted@.to_multiset() == items@.to_multiset(),
{
    let sorted = sort_range(items, 0, items.len());
    proof {
        let leq = |a: T::Key, b: T::Key| T::key_le(a, b);
        T::key_le_is_total_order();
        assert(items@.subrange(0, items@.len() as int) =~= items@);
        mapping_keeps_same_items(sorted@, items@, |item: T| item.key());
        keys(items@).lemma_sort_by_ensures(leq);
        vstd::seq_lib::lemma_sorted_unique(keys(sorted@), keys(items@).sort_by(leq), leq);
    }
    sorted
}

} // verus!
