//! Transactions as the scheduler sees them.
use crate::sorting::Ranked;
use vstd::prelude::*;

verus! {

/// An entry of the priority queue: a transaction's id with its priority.
#[derive(Debug, PartialEq, Eq, Structural, Clone, Copy)]
pub struct TransactionPriorityId {
    pub priority: u64,
    pub id: u64,
}

/// `a` leaves the queue no earlier than `b`: it has a lower priority, or the
/// same priority and no higher id.
pub open spec fn ranks_no_higher(a: TransactionPriorityId, b: TransactionPriorityId) -> bool {
    a.priority < b.priority || (a.priority == b.priority && a.id <= b.id)
}

impl Ranked for TransactionPriorityId {
    type Key = TransactionPriorityId;

    open spec fn key(self) -> TransactionPriorityId {
        self
    }

    open spec fn key_le(a: TransactionPriorityId, b: TransactionPriorityId) -> bool {
        ranks_no_higher(a, b)
    }

    proof fn key_le_is_total_order() {
    }

    fn ranks_le(&self, other: &Self) -> (le: bool) {
        self.priority < other.priority || (self.priority == other.priority && self.id <= other.id)
    }
}

/// Until when a transaction's checks remain valid.
#[derive(Debug, PartialEq, Eq, Structural, Clone, Copy)]
pub struct MaxAge {
    pub sanitized_epoch: u64,
    pub alt_invalidation_slot: u64,
}

/// A transaction, with what scheduling reads of it.
#[derive(Debug)]
pub struct RuntimeTransaction<Tx> {
    /// The accounts that the transaction names.
    pub account_keys: Vec<[u8; 32]>,
    /// For each account, whether the transaction may write it.
    pub writable: Vec<bool>,
    /// The length of the transaction on the wire, in bytes.
    pub serialized_size: u64,
    /// The transaction itself.
    pub inner: Tx,
}

impl<Tx> RuntimeTransaction<Tx> {
    /// The transaction may write the account at `index`.
    pub open spec fn writes(&self, index: int) -> bool {
        0 <= index < self.writable@.len() && self.writable@[index]
    }

    /// The places of the accounts that the transaction may write (`write`), or
    /// only reads, in order.
    pub open spec fn places(&self, write: bool) -> Seq<int> {
        Seq::new(self.account_keys@.len(), |i: int| i).filter(|i: int| self.writes(i) == write)
    }

    /// The keys of the accounts that the transaction may write (`write`), or
    /// only reads, in order.
    pub open spec fn key_list(&self, write: bool) -> Seq<[u8; 32]> {
        self.places(write).map_values(|i: int| self.account_keys@[i])
    }

    /// The accounts that the transaction may write (`write`), or only reads.
    pub open spec fn accounts(&self, write: bool) -> Set<Seq<u8>> {
        super::locks::account_set(self.key_list(write))
    }

    /// Whether the transaction may write the account at `index`.
    pub fn is_writable(&self, index: usize) -> (writable: bool)
        ensures
            writable == self.writes(index as int),
            writable <==> index < self.writable@.len() && self.writable@[index as int],
    {
        index < self.writable.len() && self.writable[index]
    }

    /// The keys of the accounts that the transaction may write (`write`), or
    /// only reads, in order.
    pub fn locked_keys(&self, write: bool) -> (keys: Vec<[u8; 32]>)
        ensures
            keys@ == self.key_list(write),
            keys@ == Seq::new(self.account_keys@.len(), |i: int| i).filter(
                |i: int| (0 <= i < self.writable@.len() && self.writable@[i]) == write,
            ).map_values(|i: int| self.account_keys@[i]),
    {
        proof {
            self.keys_follow_the_flags(write);
        }
        let mut keys: Vec<[u8; 32]> = Vec::new();
        let ghost wanted = |i: int| self.writes(i) == write;
        let ghost key_at = |i: int| self.account_keys@[i];
        let mut i: usize = 0;
        proof {
            reveal(Seq::filter);
            assert(keys@ =~= Seq::new(0, |j: int| j).filter(wanted).map_values(key_at));
        }
        while i < self.account_keys.len()
            invariant
                i <= self.account_keys@.len(),
                wanted == (|i: int| self.writes(i) == write),
                key_at == (|i: int| self.account_keys@[i]),
                keys@ == Seq::new(i as nat, |j: int| j).filter(wanted).map_values(key_at),
            decreases self.account_keys@.len() - i,
        {
            let ghost before = Seq::new(i as nat, |j: int| j);
            let ghost after = Seq::new((i + 1) as nat, |j: int| j);
            proof {
                reveal(Seq::filter);
                assert(after.drop_last() =~= before);
            }
            if self.is_writable(i) == write {
                keys.push(self.account_keys[i]);
            }
            assert(keys@ =~= after.filter(wanted).map_values(key_at));
            i += 1;
        }
        keys
    }

    /// The keys that are locked for writing are those at the places that are flagged
    /// writable, in order, and the keys at all other places are locked for reading.
    pub proof fn keys_follow_the_flags(&self, write: bool)
        ensures
            self.key_list(write) == Seq::new(self.account_keys@.len(), |i: int| i).filter(
                |i: int| (0 <= i < self.writable@.len() && self.writable@[i]) == write,
            ).map_values(|i: int| self.account_keys@[i]),
            self.places(write) == Seq::new(self.account_keys@.len(), |i: int| i).filter(
                |i: int| (0 <= i < self.writable@.len() && self.writable@[i]) == write,
            ),
            self.key_list(write).len() == self.places(write).len(),
            forall|k: int|
                0 <= k < self.places(write).len() ==> #[trigger] self.key_list(write)[k]
                    == self.account_keys@[self.places(write)[k]],
            forall|i: int| #[trigger]
                self.places(write).contains(i) <==> 0 <= i < self.account_keys@.len() && (i
                    < self.writable@.len() && self.writable@[i]) == write,
    {
        broadcast use vstd::seq_lib::group_filter_ensures;

        let flagged = |i: int| (0 <= i < self.writable@.len() && self.writable@[i]) == write;
        let wanted = |i: int| self.writes(i) == write;
        assert(flagged =~= wanted);
        let all = Seq::new(self.account_keys@.len(), |i: int| i);
        assert forall|i: int| #[trigger] self.places(write).contains(i) <==> 0 <= i
            < self.account_keys@.len() && (i < self.writable@.len() && self.writable@[i])
            == write by {
            if self.places(write).contains(i) {
                all.lemma_filter_contains_rev(wanted, i);
                let k = self.places(write).index_of(i);
                assert(wanted(self.places(write)[k]));
            }
            if 0 <= i < self.account_keys@.len() && flagged(i) {
                assert(all[i] == i);
            }
        }
    }

    /// An account is among those that the transaction may write just if it stands at
    /// a place that is flagged writable, and among those that it reads just if it
    /// stands at one that is not.
    pub proof fn accounts_follow_the_flags(&self, write: bool, account: Seq<u8>)
        ensures
            self.accounts(write).contains(account) <==> exists|i: int|
                0 <= i < self.account_keys@.len() && #[trigger] self.account_keys@[i]@ == account
                    && (i < self.writable@.len() && self.writable@[i]) == write,
    {
        self.accounts_are_those_at_their_places(write, account);
        if exists|i: int|
            0 <= i < self.account_keys@.len() && #[trigger] self.account_keys@[i]@ == account && (i
                < self.writable@.len() && self.writable@[i]) == write {
            let i = choose|i: int|
                0 <= i < self.account_keys@.len() && #[trigger] self.account_keys@[i]@ == account
                    && (i < self.writable@.len() && self.writable@[i]) == write;
            assert(self.writes(i) == write);
        }
    }

    /// Each account that the transaction names is among those that it may write
    /// or among those that it only reads, just as its places say.
    pub proof fn accounts_are_those_at_their_places(&self, write: bool, account: Seq<u8>)
        ensures
            self.accounts(write).contains(account) <==> exists|i: int|
                0 <= i < self.account_keys@.len() && #[trigger] self.account_keys@[i]@ == account
                    && self.writes(i) == write,
    {
        broadcast use vstd::seq_lib::group_filter_ensures;

        let all = Seq::new(self.account_keys@.len(), |i: int| i);
        let wanted = |i: int| self.writes(i) == write;
        let keys = self.key_list(write);
        if self.accounts(write).contains(account) {
            let k = choose|k: int| 0 <= k < keys.len() && #[trigger] keys[k]@ == account;
            let i = self.places(write)[k];
            assert(self.places(write).contains(i));
            all.lemma_filter_contains_rev(wanted, i);
            assert(self.account_keys@[i]@ == account);
        }
        if exists|i: int|
            0 <= i < self.account_keys@.len() && #[trigger] self.account_keys@[i]@ == account
                && self.writes(i) == write {
            let i = choose|i: int|
                0 <= i < self.account_keys@.len() && #[trigger] self.account_keys@[i]@ == account
                    && self.writes(i) == write;
            assert(all[i] == i);
            assert(self.places(write).contains(i));
            let k = self.places(write).index_of(i);
            assert(keys[k]@ == account);
        }
    }
}

/// What is known of a buffered transaction. The transaction itself is gone
/// once it has been taken for scheduling.
#[derive(Debug)]
pub struct TransactionState<Tx> {
    pub transaction: Option<RuntimeTransaction<Tx>>,
    pub max_age: MaxAge,
    pub cost: u64,
}

impl<Tx> TransactionState<Tx> {
    /// The state after the transaction has been taken.
    pub open spec fn taken(self) -> Self {
        TransactionState { transaction: None, max_age: self.max_age, cost: self.cost }
    }

    /// Whether the transaction has not been taken yet.
    pub fn has_transaction(&self) -> (has: bool)
        ensures
            has == (self.transaction is Some),
    {
        self.transaction.is_some()
    }

    /// The transaction's cost in compute units.
    pub fn cost(&self) -> (cost: u64)
        ensures
            cost == self.cost,
    {
        self.cost
    }

    /// Takes the transaction, which must not have been taken yet.
    pub fn take_transaction_for_scheduling(&mut self) -> (taken: (RuntimeTransaction<Tx>, MaxAge))
        requires
            old(self).transaction is Some,
        ensures
            old(self).transaction == Some(taken.0),
            old(self).max_age == taken.1,
            *final(self) == old(self).taken(),
            final(self).transaction is None,
            final(self).max_age == old(self).max_age,
            final(self).cost == old(self).cost,
    {
        let transaction = self.transaction.take().unwrap();
        (transaction, self.max_age)
    }
}

} // verus!
