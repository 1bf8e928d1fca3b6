//! Byte strings: lexicographic order and equality.
use vstd::prelude::*;

verus! {

/// `a` comes no later than `b` in lexicographic order; a proper prefix comes
/// before every extension of it.
pub open spec fn lex_le(a: Seq<u8>, b: Seq<u8>) -> bool
    decreases a.len(),
{
    if a.len() == 0 {
        true
    } else if b.len() == 0 {
        false
    } else if a[0] != b[0] {
        a[0] < b[0]
    } else {
        lex_le(a.drop_first(), b.drop_first())
    }
}

proof fn lemma_lex_le_reflexive(a: Seq<u8>)
    ensures
        lex_le(a, a),
    decreases a.len(),
{
    if a.len() > 0 {
        lemma_lex_le_reflexive(a.drop_first());
    }
}

proof fn lemma_lex_le_antisymmetric(a: Seq<u8>, b: Seq<u8>)
    requires
        lex_le(a, b),
        lex_le(b, a),
    ensures
        a == b,
    decreases a.len(),
{
    if a.len() > 0 {
        lemma_lex_le_antisymmetric(a.drop_first(), b.drop_first());
        assert(a =~= seq![a[0]] + a.drop_first());
        assert(b =~= seq![b[0]] + b.drop_first());
    } else {
        assert(a =~= b);
    }
}

proof fn lemma_lex_le_transitive(a: Seq<u8>, b: Seq<u8>, c: Seq<u8>)
    requires
        lex_le(a, b),
        lex_le(b, c),
    ensures
        lex_le(a, c),
    decreases a.len(),
{
    if a.len() > 0 && a[0] == b[0] && b[0] == c[0] {
        lemma_lex_le_transitive(a.drop_first(), b.drop_first(), c.drop_first());
    }
}

proof fn lemma_lex_le_connected(a: Seq<u8>, b: Seq<u8>)
    ensures
        lex_le(a, b) || lex_le(b, a),
    decreases a.len(),
{
    if a.len() > 0 && b.len() > 0 && a[0] == b[0] {
        lemma_lex_le_connected(a.drop_first(), b.drop_first());
    }
}

/// Lexicographic order is a total order on byte strings.
pub proof fn lex_le_is_total_order()
    ensures
        vstd::relations::total_ordering(|a: Seq<u8>, b: Seq<u8>| lex_le(a, b)),
{
    assert forall|a: Seq<u8>| lex_le(a, a) by {
        lemma_lex_le_reflexive(a);
    }
    assert forall|a: Seq<u8>, b: Seq<u8>| lex_le(a, b) && lex_le(b, a) implies a == b by {
        lemma_lex_le_antisymmetric(a, b);
    }
    assert forall|a: Seq<u8>, b: Seq<u8>, c: Seq<u8>|
        lex_le(a, b) && lex_le(b, c) implies lex_le(a, c) by {
        lemma_lex_le_transitive(a, b, c);
    }
    assert forall|a: Seq<u8>, b: Seq<u8>| lex_le(a, b) || lex_le(b, a) by {
        lemma_lex_le_connected(a, b);
    }
}

/// Lexicographic order is decided by the first byte in which two strings differ,
/// and otherwise by which of them ends first.
pub proof fn lex_le_is_decided_by_first_difference(a: Seq<u8>, b: Seq<u8>)
    ensures
        lex_le(a, b) <==> {
            ||| a.len() <= b.len() && forall|j: int| 0 <= j < a.len() ==> a[j] == b[j]
            ||| exists|k: int|
                0 <= k < a.len() && k < b.len() && (forall|j: int| 0 <= j < k ==> a[j] == b[j])
                    && #[trigger] a[k] < b[k]
        },
    decreases a.len(),
{
    if a.len() > 0 && b.len() > 0 {
        if a[0] == b[0] {
            let x = a.drop_first();
            let y = b.drop_first();
            lex_le_is_decided_by_first_difference(x, y);
            assert forall|k: int| 0 <= k < x.len() && k < y.len() implies x[k] == a[k + 1] && y[k]
                == b[k + 1] by {}
            if x.len() <= y.len() && forall|j: int| 0 <= j < x.len() ==> x[j] == y[j] {
                assert forall|j: int| 0 <= j < a.len() implies a[j] == b[j] by {
                    if j > 0 {
                        assert(x[j - 1] == y[j - 1]);
                    }
                }
            }
            if exists|k: int|
                0 <= k < x.len() && k < y.len() && (forall|j: int| 0 <= j < k ==> x[j] == y[j])
                    && #[trigger] x[k] < y[k] {
                let k = choose|k: int|
                    0 <= k < x.len() && k < y.len() && (forall|j: int|
                        0 <= j < k ==> x[j] == y[j]) && #[trigger] x[k] < y[k];
                assert forall|j: int| 0 <= j < k + 1 implies a[j] == b[j] by {
                    if j > 0 {
                        assert(x[j - 1] == y[j - 1]);
                    }
                }
                assert(a[k + 1] < b[k + 1]);
            }
            if exists|k: int|
                0 <= k < a.len() && k < b.len() && (forall|j: int| 0 <= j < k ==> a[j] == b[j])
                    && #[trigger] a[k] < b[k] {
                let k = choose|k: int|
                    0 <= k < a.len() && k < b.len() && (forall|j: int|
                        0 <= j < k ==> a[j] == b[j]) && #[trigger] a[k] < b[k];
                assert forall|j: int| 0 <= j < k - 1 implies x[j] == y[j] by {
                    assert(a[j + 1] == b[j + 1]);
                }
                assert(x[k - 1] < y[k - 1]);
            }
        } else {
            if a[0] < b[0] {
                assert(exists|k: int|
                    0 <= k < a.len() && k < b.len() && (forall|j: int|
                        0 <= j < k ==> a[j] == b[j]) && #[trigger] a[k] < b[k]);
            }
        }
    }
}

/// Compares two byte strings lexicographically.
pub fn bytes_le(a: &[u8], b: &[u8]) -> (le: bool)
    ensures
        le == lex_le(a@, b@),
        le <==> {
            ||| a@.len() <= b@.len() && forall|j: int| 0 <= j < a@.len() ==> a@[j] == b@[j]
            ||| exists|k: int|
                0 <= k < a@.len() && k < b@.len() && (forall|j: int|
                    0 <= j < k ==> a@[j] == b@[j]) && #[trigger] a@[k] < b@[k]
        },
{
    proof {
        lex_le_is_decided_by_first_difference(a@, b@);
    }
    comes_no_later(a, b)
}

/// Walks along both byte strings up to where they differ or one of them ends.
fn comes_no_later(a: &[u8], b: &[u8]) -> (le: bool)
    ensures
        le == lex_le(a@, b@),
{
    let mut i: usize = 0;
    assert(a@.skip(0) =~= a@);
    assert(b@.skip(0) =~= b@);
    while i < a.len() && i < b.len()
        invariant
            i <= a@.len(),
            i <= b@.len(),
            lex_le(a@, b@) == lex_le(a@.skip(i as int), b@.skip(i as int)),
        decreases a@.len() - i,
    {
        let x: u8 = a[i];
        let y: u8 = b[i];
        if x != y {
            return x < y;
        }
        assert(a@.skip(i as int).drop_first() =~= a@.skip(i + 1));
        assert(b@.skip(i as int).drop_first() =~= b@.skip(i + 1));
        i += 1;
    }
    i >= a.len()
}

/// Whether two byte strings are the same.
pub fn bytes_eq(a: &[u8], b: &[u8]) -> (eq: bool)
    ensures
        eq == (a@ == b@),
{
    if a.len() != b.len() {
        return false;
    }
    let mut i: usize = 0;
    while i < a.len()
        invariant
            i <= a@.len(),
            a@.len() == b@.len(),
            forall|j: int| 0 <= j < i ==> a@[j] == b@[j],
        decreases a@.len() - i,
    {
        if a[i] != b[i] {
            return false;
        }
        i += 1;
    }
    assert(a@ =~= b@);
    true
}

} // verus!
