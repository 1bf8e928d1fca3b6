//! Thread sets and thread-aware account locks, as kept by the
//! `agave-scheduling-utils` crate.
use agave_scheduling_utils::thread_aware_account_locks::{
    ThreadAwareAccountLocks, ThreadSet, TryLockError,
};
use solana_pubkey::Pubkey;
use vstd::prelude::*;

verus! {

/// A set of threads.
#[verifier::external_type_specification]
#[verifier::external_body]
pub struct ExThreadSet(ThreadSet);

/// Which threads hold which accounts for writing and for reading.
#[verifier::external_type_specification]
#[verifier::external_body]
pub struct ExThreadAwareAccountLocks(ThreadAwareAccountLocks);

/// The threads in a thread set.
pub uninterp spec fn threads_in(set: ThreadSet) -> Set<usize>;

/// The accounts that are locked for writing, each with the thread that holds it.
pub uninterp spec fn write_holders(locks: ThreadAwareAccountLocks) -> Map<Seq<u8>, usize>;

/// The accounts that are locked for reading, each with the threads that hold it.
pub uninterp spec fn read_holders(locks: ThreadAwareAccountLocks) -> Map<Seq<u8>, Set<usize>>;

/// How often the thread that holds an account for writing has locked it, or zero
/// where no thread does.
pub uninterp spec fn write_lock_count(locks: ThreadAwareAccountLocks, account: Seq<u8>) -> u32;

/// How often a thread has locked an account for reading, or zero where it does
/// not hold it.
pub uninterp spec fn read_lock_count(
    locks: ThreadAwareAccountLocks,
    account: Seq<u8>,
    thread: usize,
) -> u32;

/// The number of threads that the locks were made for.
pub uninterp spec fn lock_threads(locks: ThreadAwareAccountLocks) -> nat;

/// The threads numbered below `num_threads`.
pub open spec fn all_threads(num_threads: nat) -> Set<usize> {
    Set::new(|thread: usize| thread < num_threads)
}

/// `ThreadSet::any`: the threads numbered below `num_threads`.
pub assume_specification[ ThreadSet::any ](num_threads: usize) -> (set: ThreadSet)
    requires
        num_threads <= 64,
    ensures
        threads_in(set) == all_threads(num_threads as nat),
;

/// `ThreadSet::contains`: whether the set holds the thread.
pub assume_specification[ ThreadSet::contains ](set: &ThreadSet, thread_id: usize) -> (found: bool)
    requires
        thread_id < 64,
    ensures
        found == threads_in(*set).contains(thread_id),
;

/// `ThreadSet::remove`: takes the thread out of the set.
pub assume_specification[ ThreadSet::remove ](set: &mut ThreadSet, thread_id: usize)
    requires
        thread_id < 64,
    ensures
        threads_in(*final(set)) == threads_in(*old(set)).remove(thread_id),
;

/// `ThreadSet::is_empty`: whether the set holds no thread.
#[verifier::external_body]
pub(crate) fn no_threads(set: &ThreadSet) -> (empty: bool)
    ensures
        empty == (threads_in(*set) == Set::<usize>::empty()),
{
    set.is_empty()
}

/// How often a list of keys names an account.
pub open spec fn times_named(keys: Seq<[u8; 32]>, account: Seq<u8>) -> nat {
    keys.filter(|key: [u8; 32]| key@ == account).len()
}

/// A lock count after as many further locks. Lock counts wrap around.
pub open spec fn counted(count: u32, further: nat) -> u32 {
    ((count + further) % 0x1_0000_0000) as u32
}

/// The account locks as a table.
#[verifier::ext_equal]
pub struct LockTable {
    /// The accounts that are locked for writing, each with its holder.
    pub write: Map<Seq<u8>, usize>,
    /// The accounts that are locked for reading, each with its holders.
    pub read: Map<Seq<u8>, Set<usize>>,
    /// For every account, how often its holder has locked it for writing.
    pub write_counts: Map<Seq<u8>, u32>,
    /// For every account and thread, how often the thread has locked the
    /// account for reading.
    pub read_counts: Map<(Seq<u8>, usize), u32>,
}

impl LockTable {
    /// Nothing is locked.
    pub open spec fn unlocked() -> Self {
        LockTable {
            write: Map::empty(),
            read: Map::empty(),
            write_counts: Map::total(|account: Seq<u8>| 0u32),
            read_counts: Map::total(|held: (Seq<u8>, usize)| 0u32),
        }
    }

    /// `thread` may lock `account` for writing: no other thread holds it.
    pub open spec fn may_write(self, account: Seq<u8>, thread: usize) -> bool {
        if self.write.dom().contains(account) {
            self.write[account] == thread
        } else {
            self.read.dom().contains(account) ==> self.read[account] == set![thread]
        }
    }

    /// `thread` may lock `account` for reading: no other thread writes it.
    pub open spec fn may_read(self, account: Seq<u8>, thread: usize) -> bool {
        self.write.dom().contains(account) ==> self.write[account] == thread
    }

    /// The threads that may lock all of `written` for writing and all of
    /// `read` for reading.
    pub open spec fn available(
        self,
        num_threads: nat,
        written: Set<Seq<u8>>,
        read: Set<Seq<u8>>,
    ) -> Set<usize> {
        all_threads(num_threads).filter(
            |thread: usize|
                {
                    &&& forall|account: Seq<u8>|
                        written.contains(account) ==> #[trigger] self.may_write(account, thread)
                    &&& forall|account: Seq<u8>|
                        read.contains(account) ==> #[trigger] self.may_read(account, thread)
                },
        )
    }

    /// The table after `thread` has locked each of the keys in `written` for
    /// writing and each of the keys in `read` for reading, as often as it is
    /// listed.
    pub open spec fn lock(
        self,
        written: Seq<[u8; 32]>,
        read: Seq<[u8; 32]>,
        thread: usize,
    ) -> Self {
        LockTable {
            write: Map::new(
                |account: Seq<u8>|
                    account_set(written).contains(account) || self.write.dom().contains(account),
                |account: Seq<u8>|
                    if account_set(written).contains(account) {
                        thread
                    } else {
                        self.write[account]
                    },
            ),
            read: Map::new(
                |account: Seq<u8>|
                    account_set(read).contains(account) || self.read.dom().contains(account),
                |account: Seq<u8>|
                    if !account_set(read).contains(account) {
                        self.read[account]
                    } else if self.read.dom().contains(account) {
                        self.read[account].insert(thread)
                    } else {
                        set![thread]
                    },
            ),
            write_counts: Map::total(
                |account: Seq<u8>|
                    counted(self.write_counts[account], times_named(written, account)),
            ),
            read_counts: Map::total(
                |held: (Seq<u8>, usize)|
                    if held.1 == thread {
                        counted(self.read_counts[held], times_named(read, held.0))
                    } else {
                        self.read_counts[held]
                    },
            ),
        }
    }

    /// A thread that holds an account for writing is the only thread that
    /// holds it at all.
    pub open spec fn exclusive(self) -> bool {
        forall|account: Seq<u8>| #[trigger]
            self.write.dom().contains(account) && self.read.dom().contains(account)
                ==> self.read[account] == set![self.write[account]]
    }
}

/// Locking accounts for a thread that may lock them keeps write locks
/// exclusive.
pub proof fn locking_keeps_exclusion(
    table: LockTable,
    num_threads: nat,
    written: Seq<[u8; 32]>,
    read: Seq<[u8; 32]>,
    thread: usize,
)
    requires
        table.exclusive(),
        table.available(num_threads, account_set(written), account_set(read)).contains(thread),
    ensures
        table.lock(written, read, thread).exclusive(),
{
    let after = table.lock(written, read, thread);
    assert forall|account: Seq<u8>| #[trigger]
        after.write.dom().contains(account) && after.read.dom().contains(
            account,
        ) implies after.read[account] == set![after.write[account]] by {
        if account_set(written).contains(account) {
            assert(table.may_write(account, thread));
        }
        if account_set(read).contains(account) {
            assert(table.may_read(account, thread));
        }
        assert(after.read[account] =~= set![after.write[account]]);
    }
}

/// The table that the locks keep.
pub open spec fn lock_table(locks: ThreadAwareAccountLocks) -> LockTable {
    LockTable {
        write: write_holders(locks),
        read: read_holders(locks),
        write_counts: Map::total(|account: Seq<u8>| write_lock_count(locks, account)),
        read_counts: Map::total(
            |held: (Seq<u8>, usize)| read_lock_count(locks, held.0, held.1),
        ),
    }
}

/// The accounts that a list of keys names.
pub open spec fn account_set(keys: Seq<[u8; 32]>) -> Set<Seq<u8>> {
    Set::new(|account: Seq<u8>| exists|i: int| 0 <= i < keys.len() && #[trigger] keys[i]@ == account)
}

/// Why accounts could not be locked.
#[derive(Debug, PartialEq, Eq, Structural, Clone, Copy)]
pub enum LockRefusal {
    /// The accounts are held in such a way that no thread may lock them all.
    MultipleConflicts,
    /// No thread that may lock the accounts is among the allowed ones.
    ThreadNotAllowed,
}

/// `picked` is a thread that `selector` may pick from the threads in `from`.
pub open spec fn may_pick<F: Fn(ThreadSet) -> usize>(
    selector: F,
    from: Set<usize>,
    picked: usize,
) -> bool {
    exists|set: ThreadSet|
        #[trigger] threads_in(set) == from && call_ensures(selector, (set,), picked)
}

/// `selector` picks a member of every non-empty set of threads within `bound`.
pub open spec fn picks_members<F: Fn(ThreadSet) -> usize>(selector: F, bound: Set<usize>) -> bool {
    forall|set: ThreadSet|
        threads_in(set).subset_of(bound) && threads_in(set) != Set::<usize>::empty() ==> {
            &&& #[trigger] call_requires(selector, (set,))
            &&& forall|picked: usize| #[trigger]
                call_ensures(selector, (set,), picked) ==> threads_in(set).contains(picked)
        }
}

/// `ThreadAwareAccountLocks::new`: nothing is locked.
#[verifier::external_body]
pub(crate) fn locks_new(num_threads: usize) -> (locks: ThreadAwareAccountLocks)
    requires
        0 < num_threads <= 64,
    ensures
        write_holders(locks) == LockTable::unlocked().write,
        read_holders(locks) == LockTable::unlocked().read,
        (forall|account: Seq<u8>| #[trigger] write_lock_count(locks, account) == 0),
        (forall|account: Seq<u8>, thread: usize| #[trigger]
            read_lock_count(locks, account, thread) == 0),
        lock_threads(locks) == num_threads,
{
    ThreadAwareAccountLocks::new(num_threads)
}

/// `ThreadAwareAccountLocks::try_lock_accounts`: where some thread may lock all
/// the accounts and is allowed, `selector` picks one of these threads, the
/// accounts are locked for it, each as often as it is listed, and it is returned;
/// otherwise nothing changes. The locks count in 32 bits, wrapping around.
#[verifier::external_body]
pub(crate) fn try_lock_accounts<F: Fn(ThreadSet) -> usize>(
    locks: &mut ThreadAwareAccountLocks,
    written: &Vec<[u8; 32]>,
    read: &Vec<[u8; 32]>,
    allowed: ThreadSet,
    selector: F,
) -> (locked: Result<usize, LockRefusal>)
    requires
        picks_members(
            selector,
            all_threads(lock_threads(*old(locks))).intersect(threads_in(allowed)),
        ),
    ensures
        lock_threads(*final(locks)) == lock_threads(*old(locks)),
        ({
            let before = lock_table(*old(locks));
            let after = lock_table(*final(locks));
            let available = before.available(
                lock_threads(*old(locks)),
                account_set(written@),
                account_set(read@),
            );
            match locked {
                Err(LockRefusal::MultipleConflicts) => {
                    &&& available == Set::<usize>::empty()
                    &&& *final(locks) == *old(locks)
                },
                Err(LockRefusal::ThreadNotAllowed) => {
                    &&& available != Set::<usize>::empty()
                    &&& available.intersect(threads_in(allowed)) == Set::<usize>::empty()
                    &&& *final(locks) == *old(locks)
                },
                Ok(thread) => {
                    &&& available.intersect(threads_in(allowed)) != Set::<usize>::empty()
                    &&& may_pick(selector, available.intersect(threads_in(allowed)), thread)
                    &&& after == before.lock(written@, read@, thread)
                },
            }
        }),
{
    let written: Vec<Pubkey> = written.iter().map(|key| Pubkey::new_from_array(*key)).collect();
    let read: Vec<Pubkey> = read.iter().map(|key| Pubkey::new_from_array(*key)).collect();
    match locks.try_lock_accounts(written.iter(), read.iter(), allowed, selector) {
        Ok(thread) => Ok(thread),
        Err(TryLockError::MultipleConflicts) => Err(LockRefusal::MultipleConflicts),
        Err(TryLockError::ThreadNotAllowed) => Err(LockRefusal::ThreadNotAllowed),
    }
}

} // verus!
