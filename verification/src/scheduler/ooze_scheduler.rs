//! Ooze scheduler: fair ordering via VRF-seeded randomness.
//!
//! Before each scheduling pass the scheduler drains the priority queue, runs a
//! VRF shuffle, rewrites each entry's priority to a descending counter so that
//! the queue re-sorts in the shuffled order, and then runs a greedy loop from
//! that reshuffled queue.
//!
//! Priority fees are still paid (validator revenue is preserved), but the shuffle
//! does not look at them: they set only the order that it starts from.
use super::common::{select_thread, ConsumeWork, SchedulingCommon};
use super::container::StateContainer;
use super::locks::{no_threads, try_lock_accounts, LockRefusal};
use super::model::{Attempt, PassLimits, PassState, Phase, Request};
use super::transaction::{MaxAge, RuntimeTransaction, TransactionPriorityId, TransactionState};
use crate::shuffle::shuffle_with_seed;
use crate::vrf::{commit_hash, VrfOutput};
use agave_scheduling_utils::thread_aware_account_locks::{ThreadAwareAccountLocks, ThreadSet};
use solana_keypair::Keypair;
use std::sync::Arc;
use vstd::prelude::*;

verus! {

/// How many transactions are sent to a thread at a time, unless configured
/// otherwise.
pub const TARGET_NUM_TRANSACTIONS_PER_BATCH: usize = 64;

/// `block_cost_limits::MAX_BLOCK_UNITS` of the `solana-cost-model` crate: the
/// compute units that a block may cost, sixty million.
#[verifier::external_body]
fn max_block_units() -> (units: u64)
    ensures
        units == 60_000_000,
{
    solana_cost_model::block_cost_limits::MAX_BLOCK_UNITS
}

#[derive(Debug, PartialEq, Eq, Structural, Clone, Copy)]
pub struct OozeSchedulerConfig {
    pub target_scheduled_cus: u64,
    pub max_scanned_transactions_per_scheduling_pass: usize,
    pub target_transactions_per_batch: usize,
}

impl Default for OozeSchedulerConfig {
    fn default() -> (config: Self)
        ensures
            config.target_scheduled_cus == 15_000_000,
            config.max_scanned_transactions_per_scheduling_pass == 100_000,
            config.target_transactions_per_batch == TARGET_NUM_TRANSACTIONS_PER_BATCH,
            config.target_transactions_per_batch == 64,
    {
        Self {
            target_scheduled_cus: max_block_units() / 4,
            max_scanned_transactions_per_scheduling_pass: 100_000,
            target_transactions_per_batch: TARGET_NUM_TRANSACTIONS_PER_BATCH,
        }
    }
}

/// The transaction with the given id is buffered and has not been taken.
pub open spec fn waits<Tx>(states: Map<u64, TransactionState<Tx>>, id: u64) -> bool {
    states.dom().contains(id) && states[id].transaction is Some
}

/// The entries whose transactions are buffered and have not been taken, in
/// order.
pub open spec fn recirculated<Tx>(
    queue: Seq<TransactionPriorityId>,
    states: Map<u64, TransactionState<Tx>>,
) -> Seq<TransactionPriorityId> {
    queue.filter(
        |entry: TransactionPriorityId| waits(states, entry.id),
    )
}

/// The ids of the entries.
pub open spec fn ids_of(entries: Seq<TransactionPriorityId>) -> Seq<u64> {
    entries.map_values(|entry: TransactionPriorityId| entry.id)
}

/// The ids of the entries as byte strings, least significant byte first.
pub open spec fn id_bytes(entries: Seq<TransactionPriorityId>) -> Seq<Seq<u8>> {
    entries.map_values(
        |entry: TransactionPriorityId| vstd::bytes::spec_u64_to_le_bytes(entry.id),
    )
}

/// The entries with their priorities replaced by a counter that descends to
/// one.
pub open spec fn rewritten(entries: Seq<TransactionPriorityId>) -> Seq<TransactionPriorityId> {
    Seq::new(
        entries.len(),
        |i: int|
            TransactionPriorityId { priority: (entries.len() - i) as u64, id: entries[i].id },
    )
}

/// The randomness of the validator with the given secret key for the pass with
/// the given number over the given entries.
pub open spec fn pass_randomness(
    secret: Seq<u8>,
    pass: u64,
    entries: Seq<TransactionPriorityId>,
) -> Seq<u8> {
    crate::digest::sha256(
        crate::identity::ed25519_signature(
            secret,
            crate::vrf::vrf_message(pass, crate::vrf::commit_of(id_bytes(entries))),
        ),
    )
}

/// The order in which the shuffle of a pass lays the entries out.
pub open spec fn pass_order(
    secret: Seq<u8>,
    pass: u64,
    entries: Seq<TransactionPriorityId>,
) -> Seq<int> {
    crate::shuffle::seeded_order(entries.len(), pass_randomness(secret, pass, entries))
}

/// The queue after the entries have been shuffled for a pass.
pub open spec fn reshuffled(
    secret: Seq<u8>,
    pass: u64,
    entries: Seq<TransactionPriorityId>,
) -> Seq<TransactionPriorityId> {
    rewritten(crate::shuffle::permute(entries, pass_order(secret, pass, entries)))
}

/// The number of the pass that follows.
pub open spec fn next_pass(pass: u64) -> u64 {
    if pass == u64::MAX {
        0
    } else {
        (pass + 1) as u64
    }
}

/// The queue that a pass starts from, and the number of shuffles after it. A
/// queue with fewer than two transactions left in it is not shuffled.
pub open spec fn queue_for_pass<Tx>(
    secret: Seq<u8>,
    pass_counter: u64,
    queue: Seq<TransactionPriorityId>,
    states: Map<u64, TransactionState<Tx>>,
) -> (Seq<TransactionPriorityId>, u64) {
    let entries = recirculated(queue, states);
    if entries.len() < 2 {
        (entries, pass_counter)
    } else {
        (reshuffled(secret, next_pass(pass_counter), entries), next_pass(pass_counter))
    }
}

/// Rewrites priorities: position 0 gets the highest new priority, so it leaves
/// the queue first.
pub fn rewrite_priorities(shuffled: &Vec<TransactionPriorityId>) -> (reordered: Vec<
    TransactionPriorityId,
>)
    ensures
        reordered@ == rewritten(shuffled@),
        super::container::in_pop_order(reordered@),
        reordered@.len() == shuffled@.len(),
        forall|i: int|
            0 <= i < shuffled@.len() ==> (#[trigger] reordered@[i]).id == shuffled@[i].id
                && reordered@[i].priority == shuffled@.len() - i,
{
    let n: usize = shuffled.len();
    let mut reordered: Vec<TransactionPriorityId> = Vec::new();
    let mut idx: usize = 0;
    while idx < n
        invariant
            idx <= n == shuffled@.len(),
            reordered@ == rewritten(shuffled@).take(idx as int),
        decreases n - idx,
    {
        reordered.push(TransactionPriorityId { priority: (n - idx) as u64, id: shuffled[idx].id });
        assert(reordered@ =~= rewritten(shuffled@).take(idx + 1));
        idx += 1;
    }
    assert(reordered@ =~= rewritten(shuffled@));
    reordered
}

/// The commit over the ids of the entries.
fn commit_over_ids(entries: &Vec<TransactionPriorityId>) -> (commit: [u8; 32])
    ensures
        commit@ == crate::vrf::commit_of(id_bytes(entries@)),
{
    let mut bytes: Vec<Vec<u8>> = Vec::new();
    let mut i: usize = 0;
    while i < entries.len()
        invariant
            i <= entries@.len(),
            bytes@.len() == i,
            forall|j: int|
                0 <= j < i ==> (#[trigger] bytes@[j])@ == vstd::bytes::spec_u64_to_le_bytes(
                    entries@[j].id,
                ),
        decreases entries@.len() - i,
    {
        bytes.push(vstd::bytes::u64_to_le_bytes(entries[i].id));
        i += 1;
    }
    let mut id_refs: Vec<&[u8]> = Vec::new();
    let mut k: usize = 0;
    while k < bytes.len()
        invariant
            k <= bytes@.len(),
            id_refs@.len() == k,
            forall|j: int| 0 <= j < k ==> (#[trigger] id_refs@[j])@ == bytes@[j]@,
        decreases bytes@.len() - k,
    {
        id_refs.push(bytes[k].as_slice());
        k += 1;
    }
    assert(crate::vrf::contents(id_refs@) =~= id_bytes(entries@));
    commit_hash(id_refs.as_slice())
}

/// Entries that stand in the order in which they leave the queue make up the
/// queue, once they have been put into an empty one.
proof fn lemma_enqueued_into_empty(ids: Seq<TransactionPriorityId>)
    requires
        super::container::in_pop_order(ids),
    ensures
        super::container::enqueued(Seq::<TransactionPriorityId>::empty(), ids) == ids,
{
    let nothing = Seq::<TransactionPriorityId>::empty();
    assert(nothing.to_set().union(ids.to_set()) =~= ids.to_set());
    super::container::enqueued_is(nothing, ids, ids);
}

/// A transaction that has been taken to be put into a thread's batch.
#[derive(Debug)]
pub struct TransactionSchedulingInfo<Tx> {
    pub thread_id: usize,
    pub transaction: RuntimeTransaction<Tx>,
    pub max_age: MaxAge,
    pub cost: u64,
}

/// Why a transaction could not be scheduled.
#[derive(Debug, PartialEq, Eq, Structural, Clone, Copy)]
pub enum TransactionSchedulingError {
    /// The transaction is gone, or no thread may lock its accounts.
    UnschedulableConflicts,
    /// No thread that may lock the accounts may get further transactions.
    UnschedulableThread,
}

/// What comes of trying to schedule a transaction: of the result, the state and
/// the locks afterwards, from the state and the locks before.
pub open spec fn scheduling_outcome<Tx, F: Fn(ThreadSet) -> usize>(
    state: TransactionState<Tx>,
    locks: ThreadAwareAccountLocks,
    schedulable_threads: ThreadSet,
    thread_selector: F,
    state_after: TransactionState<Tx>,
    locks_after: ThreadAwareAccountLocks,
    result: Result<TransactionSchedulingInfo<Tx>, TransactionSchedulingError>,
) -> bool {
    match state.transaction {
        None => {
            &&& result == Err::<TransactionSchedulingInfo<Tx>, TransactionSchedulingError>(
                TransactionSchedulingError::UnschedulableConflicts,
            )
            &&& state_after == state
            &&& locks_after == locks
        },
        Some(transaction) => {
            let available = super::locks::lock_table(locks).available(
                super::locks::lock_threads(locks),
                transaction.accounts(true),
                transaction.accounts(false),
            );
            let candidates = available.intersect(super::locks::threads_in(schedulable_threads));
            match result {
                Err(TransactionSchedulingError::UnschedulableConflicts) => {
                    &&& available == Set::<usize>::empty()
                    &&& state_after == state
                    &&& locks_after == locks
                },
                Err(TransactionSchedulingError::UnschedulableThread) => {
                    &&& available != Set::<usize>::empty()
                    &&& candidates == Set::<usize>::empty()
                    &&& state_after == state
                    &&& locks_after == locks
                },
                Ok(info) => {
                    &&& candidates.contains(info.thread_id)
                    &&& super::locks::may_pick(thread_selector, candidates, info.thread_id)
                    &&& super::locks::lock_table(locks_after) == super::locks::lock_table(
                        locks,
                    ).lock(
                        transaction.key_list(true),
                        transaction.key_list(false),
                        info.thread_id,
                    )
                    &&& super::locks::lock_threads(locks_after) == super::locks::lock_threads(locks)
                    &&& info.transaction == transaction
                    &&& info.max_age == state.max_age
                    &&& info.cost == state.cost
                    &&& state_after == state.taken()
                },
            }
        },
    }
}

/// Locks the accounts of a transaction for one of the schedulable threads, which
/// `thread_selector` picks, and takes the transaction. The selector is not
/// called where the transaction is gone.
pub fn try_schedule_transaction<Tx, F: Fn(ThreadSet) -> usize>(
    transaction_state: &mut TransactionState<Tx>,
    account_locks: &mut ThreadAwareAccountLocks,
    schedulable_threads: ThreadSet,
    thread_selector: F,
) -> (result: Result<TransactionSchedulingInfo<Tx>, TransactionSchedulingError>)
    requires
        old(transaction_state).transaction is Some ==> super::locks::picks_members(
            thread_selector,
            super::locks::all_threads(
                super::locks::lock_threads(*old(account_locks)),
            ).intersect(super::locks::threads_in(schedulable_threads)),
        ),
    ensures
        scheduling_outcome(
            *old(transaction_state),
            *old(account_locks),
            schedulable_threads,
            thread_selector,
            *final(transaction_state),
            *final(account_locks),
            result,
        ),
        old(transaction_state).transaction is None ==> {
            &&& result == Err::<TransactionSchedulingInfo<Tx>, TransactionSchedulingError>(
                TransactionSchedulingError::UnschedulableConflicts,
            )
            &&& *final(transaction_state) == *old(transaction_state)
            &&& *final(account_locks) == *old(account_locks)
        },
        old(transaction_state).transaction matches Some(transaction) ==> {
            let table = super::locks::lock_table(*old(account_locks));
            let num_threads = super::locks::lock_threads(*old(account_locks));
            let allowed = super::locks::threads_in(schedulable_threads);
            &&& result matches Err(error) ==> {
                &&& *final(transaction_state) == *old(transaction_state)
                &&& *final(account_locks) == *old(account_locks)
                &&& error == TransactionSchedulingError::UnschedulableConflicts <==> forall|
                    thread: usize,
                | !#[trigger] super::laws::may_run_on(table, num_threads, transaction, thread)
                &&& forall|thread: usize| #[trigger]
                    super::laws::may_run_on(table, num_threads, transaction, thread)
                        ==> !allowed.contains(thread)
            }
            &&& result matches Ok(info) ==> {
                &&& super::laws::may_run_on(table, num_threads, transaction, info.thread_id)
                &&& allowed.contains(info.thread_id)
                &&& info.transaction == transaction
                &&& info.max_age == old(transaction_state).max_age
                &&& info.cost == old(transaction_state).cost
                &&& final(transaction_state).transaction is None
                &&& final(transaction_state).max_age == old(transaction_state).max_age
                &&& final(transaction_state).cost == old(transaction_state).cost
                &&& super::laws::runs_on(
                    super::locks::lock_table(*final(account_locks)),
                    transaction,
                    info.thread_id,
                )
            }
        },
{
    proof {
        if old(transaction_state).transaction is Some {
            super::laws::lemma_may_run_on(
                super::locks::lock_table(*old(account_locks)),
                super::locks::lock_threads(*old(account_locks)),
                old(transaction_state).transaction->0,
            );
            super::laws::lemma_lock_runs_on(
                super::locks::lock_table(*old(account_locks)),
                old(transaction_state).transaction->0,
            );
        }
    }
    let (written, read) = match &transaction_state.transaction {
        None => {
            return Err(TransactionSchedulingError::UnschedulableConflicts);
        },
        Some(transaction) => (transaction.locked_keys(true), transaction.locked_keys(false)),
    };
    match try_lock_accounts(account_locks, &written, &read, schedulable_threads, thread_selector) {
        Err(LockRefusal::MultipleConflicts) => {
            Err(TransactionSchedulingError::UnschedulableConflicts)
        },
        Err(LockRefusal::ThreadNotAllowed) => {
            proof {
                let candidates = super::locks::lock_table(*old(account_locks)).available(
                    super::locks::lock_threads(*old(account_locks)),
                    super::locks::account_set(written@),
                    super::locks::account_set(read@),
                ).intersect(super::locks::threads_in(schedulable_threads));
                assert forall|thread: usize| #[trigger] super::laws::may_run_on(
                    super::locks::lock_table(*old(account_locks)),
                    super::locks::lock_threads(*old(account_locks)),
                    old(transaction_state).transaction->0,
                    thread,
                ) implies !super::locks::threads_in(schedulable_threads).contains(thread) by {
                    assert(!candidates.contains(thread));
                }
            }
            Err(TransactionSchedulingError::UnschedulableThread)
        },
        Ok(thread_id) => {
            proof {
                let threads = super::locks::threads_in(schedulable_threads);
                let candidates = super::locks::lock_table(*old(account_locks)).available(
                    super::locks::lock_threads(*old(account_locks)),
                    super::locks::account_set(written@),
                    super::locks::account_set(read@),
                ).intersect(threads);
                let set = choose|set: ThreadSet|
                    #[trigger] super::locks::threads_in(set) == candidates && call_ensures(
                        thread_selector,
                        (set,),
                        thread_id,
                    );
                assert(call_requires(thread_selector, (set,)));
                assert(candidates.contains(thread_id));
                assert(super::laws::may_run_on(
                    super::locks::lock_table(*old(account_locks)),
                    super::locks::lock_threads(*old(account_locks)),
                    old(transaction_state).transaction->0,
                    thread_id,
                ));
            }
            let (transaction, max_age) = transaction_state.take_transaction_for_scheduling();
            let cost = transaction_state.cost();
            Ok(TransactionSchedulingInfo { thread_id, transaction, max_age, cost })
        },
    }
}

/// A transaction is handed out at most once: where one attempt has scheduled it,
/// the next is refused, and changes neither the state nor the locks.
pub proof fn scheduled_transaction_is_not_scheduled_again<
    Tx,
    F: Fn(ThreadSet) -> usize,
    G: Fn(ThreadSet) -> usize,
>(
    state: TransactionState<Tx>,
    locks: ThreadAwareAccountLocks,
    threads: ThreadSet,
    selector: F,
    taken: TransactionState<Tx>,
    locked: ThreadAwareAccountLocks,
    info: TransactionSchedulingInfo<Tx>,
    later_locks: ThreadAwareAccountLocks,
    later_threads: ThreadSet,
    later_selector: G,
    state_after: TransactionState<Tx>,
    locks_after: ThreadAwareAccountLocks,
    result: Result<TransactionSchedulingInfo<Tx>, TransactionSchedulingError>,
)
    requires
        scheduling_outcome(
            state,
            locks,
            threads,
            selector,
            taken,
            locked,
            Ok::<TransactionSchedulingInfo<Tx>, TransactionSchedulingError>(info),
        ),
        scheduling_outcome(
            taken,
            later_locks,
            later_threads,
            later_selector,
            state_after,
            locks_after,
            result,
        ),
    ensures
        result == Err::<TransactionSchedulingInfo<Tx>, TransactionSchedulingError>(
            TransactionSchedulingError::UnschedulableConflicts,
        ),
        state_after == taken,
        locks_after == later_locks,
{
}

/// What a scheduling pass came to.
#[derive(Debug, PartialEq, Eq, Structural, Clone, Copy)]
pub struct SchedulingSummary {
    pub starting_queue_size: usize,
    pub starting_buffer_size: usize,
    pub num_scheduled: usize,
    pub num_unschedulable_conflicts: usize,
    pub num_unschedulable_threads: usize,
}

#[derive(Debug, PartialEq, Eq, Structural, Clone, Copy)]
pub enum SchedulerError {
    /// A worker thread no longer receives work.
    DisconnectedSendChannel,
}

/// A scheduling pass under way.
pub struct SchedulingPass {
    pub starting_queue_size: usize,
    pub starting_buffer_size: usize,
    pub target_cu_per_thread: u64,
    pub schedulable_threads: ThreadSet,
    pub budget: u64,
    pub num_scanned: usize,
    pub num_scheduled: usize,
    pub num_sent: usize,
    pub num_unschedulable_conflicts: usize,
    pub num_unschedulable_threads: usize,
    pub phase: Phase,
}

/// How a scheduling pass begins.
pub enum PassStart {
    /// Every thread has as much work as it should: nothing is scheduled.
    Idle(SchedulingSummary),
    /// The pass is to be driven by `resume`.
    Started(SchedulingPass),
}

/// What happened since the pass was last resumed.
#[derive(Debug, PartialEq, Eq, Structural, Clone, Copy)]
pub enum PassEvent {
    /// The pass has just begun, or the work was sent.
    Continue,
    /// The work could not be sent.
    SendFailed,
}

/// What a pass asks its driver to do.
pub enum SchedulingStep<Tx> {
    /// Send the work to the thread, and resume the pass.
    Send { thread_id: usize, work: ConsumeWork<Tx> },
    /// The pass is over.
    Done(SchedulingSummary),
    /// The pass is given up.
    Failed(SchedulerError),
}

impl<Tx> SchedulingStep<Tx> {
    /// The step asks for just what is requested. A pass that requests nothing
    /// is over, with the given summary.
    pub open spec fn answers(self, request: Request<Tx>, summary: SchedulingSummary) -> bool {
        match request {
            Request::Send { thread, batch } => match self {
                SchedulingStep::Send { thread_id, work } => thread_id == thread && work.carries(
                    batch,
                ),
                _ => false,
            },
            Request::Nothing => self == SchedulingStep::<Tx>::Done(summary),
        }
    }
}

/// The limits of a pass of the scheduler.
pub open spec fn pass_limits<Tx>(
    scheduler: OozeScheduler<Tx>,
    pass: SchedulingPass,
) -> PassLimits {
    PassLimits {
        num_threads: scheduler.common().num_threads() as usize,
        target_cu_per_thread: pass.target_cu_per_thread,
        max_scanned: scheduler.config().max_scanned_transactions_per_scheduling_pass,
        batch_target: scheduler.config().target_transactions_per_batch,
    }
}

/// The state of a pass of the scheduler over the container.
pub open spec fn pass_state<Tx, S: StateContainer<Tx>>(
    scheduler: OozeScheduler<Tx>,
    container: S,
    pass: SchedulingPass,
) -> PassState<Tx> {
    PassState {
        queue: container.queue(),
        states: container.states(),
        locks: super::locks::lock_table(scheduler.common().account_locks),
        batches: super::common::batch_views(scheduler.common().batches@),
        cus_in_flight: scheduler.common().cus_in_flight_per_thread@,
        num_in_flight: scheduler.common().num_in_flight_per_thread@,
        unschedulables: scheduler.unschedulables(),
        schedulable: super::locks::threads_in(pass.schedulable_threads),
        budget: pass.budget,
        num_scanned: pass.num_scanned as nat,
        num_scheduled: pass.num_scheduled as nat,
        num_sent: pass.num_sent as nat,
        num_unschedulable_conflicts: pass.num_unschedulable_conflicts as nat,
        num_unschedulable_threads: pass.num_unschedulable_threads as nat,
        phase: pass.phase,
    }
}

/// The pass stands where it may be resumed.
pub open spec fn resumable<Tx, S: StateContainer<Tx>>(
    scheduler: OozeScheduler<Tx>,
    container: S,
    pass: SchedulingPass,
) -> bool {
    &&& scheduler.common().wf()
    &&& container.wf()
    &&& pass_state(scheduler, container, pass).inv(pass_limits(scheduler, pass))
}

/// The summary of a pass that has come to the given state.
pub open spec fn summary_of<Tx>(pass: SchedulingPass, state: PassState<Tx>) -> SchedulingSummary {
    SchedulingSummary {
        starting_queue_size: pass.starting_queue_size,
        starting_buffer_size: pass.starting_buffer_size,
        num_scheduled: state.num_scheduled as usize,
        num_unschedulable_conflicts: state.num_unschedulable_conflicts as usize,
        num_unschedulable_threads: state.num_unschedulable_threads as usize,
    }
}

/// What scheduling does not change of the scheduler.
pub open spec fn same_settings<Tx>(a: OozeScheduler<Tx>, b: OozeScheduler<Tx>) -> bool {
    &&& a.config() == b.config()
    &&& a.secret() == b.secret()
    &&& a.pass_counter() == b.pass_counter()
    &&& a.common().num_threads() == b.common().num_threads()
}

/// What a pass does not change of itself.
pub open spec fn same_targets(a: SchedulingPass, b: SchedulingPass) -> bool {
    &&& a.starting_queue_size == b.starting_queue_size
    &&& a.starting_buffer_size == b.starting_buffer_size
    &&& a.target_cu_per_thread == b.target_cu_per_thread
}

pub struct OozeScheduler<Tx> {
    common: SchedulingCommon<Tx>,
    unschedulables: Vec<TransactionPriorityId>,
    config: OozeSchedulerConfig,
    signing_key: Arc<Keypair>,
    pass_counter: u64,
}

impl<Tx> OozeScheduler<Tx> {
    pub closed spec fn common(&self) -> SchedulingCommon<Tx> {
        self.common
    }

    /// The entries that a pass has set aside.
    pub closed spec fn unschedulables(&self) -> Seq<TransactionPriorityId> {
        self.unschedulables@
    }

    pub closed spec fn config(&self) -> OozeSchedulerConfig {
        self.config
    }

    /// The secret key that the randomness comes from.
    pub closed spec fn secret(&self) -> Seq<u8> {
        crate::identity::keypair_secret(*self.signing_key)
    }

    /// How many times the queue has been shuffled.
    pub closed spec fn pass_counter(&self) -> u64 {
        self.pass_counter
    }

    /// The compute units that a thread should have in flight.
    pub open spec fn target_cu_per_thread(&self) -> u64 {
        (self.config().target_scheduled_cus / self.common().num_threads() as u64) as u64
    }

    /// The threads that have less work in flight than they should.
    pub open spec fn underused_threads(&self) -> Set<usize> {
        Set::new(
            |thread: usize|
                thread < self.common().num_threads()
                    && self.common().cus_in_flight_per_thread@[thread as int]
                    < self.target_cu_per_thread(),
        )
    }

    /// No pass is under way.
    pub open spec fn ready(&self) -> bool {
        &&& self.common().wf()
        &&& self.common().batches_empty()
    }

    /// The work in flight is cheap enough to be added up. Where a pass starts,
    /// what is in flight, queued and set aside is few enough, and what is queued
    /// cheap enough, for the pass to be counted in machine integers.
    pub open spec fn fits<S: StateContainer<Tx>>(&self, container: S) -> bool {
        &&& super::common::sum(self.common().cus_in_flight_per_thread@) <= u64::MAX
        &&& self.underused_threads() != Set::<usize>::empty() ==> {
            &&& forall|thread: int|
                0 <= thread < self.common().num_threads() ==> #[trigger]
                    self.common().num_in_flight_per_thread@[thread] + container.queue().len()
                    <= usize::MAX
            &&& self.unschedulables().len() + container.queue().len() <= usize::MAX
            &&& forall|i: int|
                0 <= i < container.queue().len() && waits(
                    container.states(),
                    (#[trigger] container.queue()[i]).id,
                ) ==> container.states()[container.queue()[i].id].cost
                    + self.target_cu_per_thread() <= u64::MAX
        }
    }

    /// A scheduler for `num_threads` worker threads.
    pub fn new(num_threads: usize, config: OozeSchedulerConfig, signing_key: Arc<Keypair>) -> (
        scheduler: Self)
        requires
            0 < num_threads <= 64,
        ensures
            scheduler.common().wf(),
            scheduler.common().num_threads() == num_threads,
            scheduler.common().batches_empty(),
            super::locks::lock_table(scheduler.common().account_locks)
                == super::locks::LockTable::unlocked(),
            forall|thread: int|
                0 <= thread < num_threads ==> {
                    &&& #[trigger] scheduler.common().cus_in_flight_per_thread@[thread] == 0
                    &&& scheduler.common().num_in_flight_per_thread@[thread] == 0
                },
            scheduler.unschedulables() == Seq::<TransactionPriorityId>::empty(),
            scheduler.config() == config,
            scheduler.secret() == crate::identity::keypair_secret(*signing_key),
            scheduler.pass_counter() == 0,
    {
        Self {
            unschedulables: Vec::with_capacity(config.max_scanned_transactions_per_scheduling_pass),
            common: SchedulingCommon::new(num_threads),
            config,
            signing_key,
            pass_counter: 0,
        }
    }

    /// Drain the priority queue, VRF-shuffle the ids, rewrite priorities so that
    /// the queue sorts in shuffled order, and push back.
    pub fn apply_ooze_ordering<S: StateContainer<Tx>>(&mut self, container: &mut S)
        requires
            old(container).wf(),
        ensures
            final(container).wf(),
            final(container).states() == old(container).states(),
            final(self).common() == old(self).common(),
            final(self).unschedulables() == old(self).unschedulables(),
            final(self).config() == old(self).config(),
            final(self).secret() == old(self).secret(),
            (final(container).queue(), final(self).pass_counter()) == queue_for_pass(
                old(self).secret(),
                old(self).pass_counter(),
                old(container).queue(),
                old(container).states(),
            ),
            ({
                let entries = recirculated(old(container).queue(), old(container).states());
                let order = pass_order(old(self).secret(), final(self).pass_counter(), entries);
                entries.len() >= 2 ==> order.len() == entries.len()
                    && crate::shuffle::is_permutation(order)
            }),
            ids_of(final(container).queue()).to_multiset() == ids_of(
                recirculated(old(container).queue(), old(container).states()),
            ).to_multiset(),
            ({
                let states = old(container).states();
                let waiting = old(container).queue().filter(
                    |entry: TransactionPriorityId|
                        states.dom().contains(entry.id) && states[entry.id].transaction is Some,
                );
                let pass = final(self).pass_counter();
                let randomness = crate::digest::sha256(
                    crate::identity::ed25519_signature(
                        old(self).secret(),
                        vstd::bytes::spec_u64_to_le_bytes(pass) + crate::vrf::commit_of(
                            waiting.map_values(
                                |entry: TransactionPriorityId|
                                    vstd::bytes::spec_u64_to_le_bytes(entry.id),
                            ),
                        ),
                    ),
                );
                let order = crate::shuffle::shuffle_order(
                    waiting.len(),
                    (randomness, 0u64, 0u128),
                );
                let queue = final(container).queue();
                &&& waiting.len() < 2 ==> queue == waiting && pass == old(self).pass_counter()
                &&& waiting.len() >= 2 ==> {
                    &&& pass == (old(self).pass_counter() + 1) % 0x1_0000_0000_0000_0000
                    &&& queue.len() == waiting.len()
                    &&& order.no_duplicates()
                    &&& forall|k: int|
                        0 <= k < queue.len() ==> {
                            &&& 0 <= order[k] < waiting.len()
                            &&& (#[trigger] queue[k]).id == waiting[order[k]].id
                            &&& queue[k].priority == waiting.len() - k
                        }
                }
            }),
    {
        let ghost queue = container.queue();
        let ghost states = container.states();
        let ghost keeps = |entry: TransactionPriorityId| waits(states, entry.id);
        let mut drained: Vec<TransactionPriorityId> = Vec::new();
        let ghost mut popped: int = 0;
        proof {
            assert(keeps =~= (|entry: TransactionPriorityId|
                states.dom().contains(entry.id) && states[entry.id].transaction is Some));
            container.wf_facts();
            assert(queue.skip(0) =~= queue);
            assert(queue.take(0) =~= Seq::<TransactionPriorityId>::empty());
            assert(drained@ =~= queue.take(0).filter(keeps));
        }
        loop
            invariant
                container.wf(),
                container.states() == states,
                0 <= popped <= queue.len(),
                container.queue() == queue.skip(popped),
                drained@ == queue.take(popped).filter(keeps),
                drained@.len() <= popped,
                keeps == (|entry: TransactionPriorityId| waits(states, entry.id)),
            ensures
                popped == queue.len(),
            decreases queue.len() - popped,
        {
            let id = match container.pop() {
                Some(id) => id,
                None => {
                    break;
                },
            };
            // Ids whose transaction was already taken (scheduled, in flight) must
            // not be shuffled back into the schedulable queue.
            let keep: bool = match container.get_mut_transaction_state(id.id) {
                Some(state) => state.has_transaction(),
                None => false,
            };
            proof {
                assert(id == queue[popped]);
                assert(queue.take(popped + 1).drop_last() =~= queue.take(popped));
                reveal(Seq::filter);
                assert(queue.skip(popped).drop_first() =~= queue.skip(popped + 1));
                assert(container.states() =~= states);
                popped = popped + 1;
            }
            if keep {
                drained.push(id);
            }
        }
        proof {
            assert(queue.take(popped) =~= queue);
            assert(container.queue() =~= Seq::<TransactionPriorityId>::empty());
        }
        if drained.len() < 2 {
            proof {
                lemma_enqueued_into_empty(drained@);
            }
            container.push_ids_into_queue(drained);
            return ;
        }
        let ghost entries = drained@;
        let commit = commit_over_ids(&drained);
        self.pass_counter = self.pass_counter.wrapping_add(1);
        let vrf = VrfOutput::evaluate(&self.signing_key, self.pass_counter, commit);
        shuffle_with_seed(&mut drained, vrf.randomness);
        let reordered = rewrite_priorities(&drained);
        proof {
            assert(reordered@ == reshuffled(self.secret(), self.pass_counter, entries));
            reshuffle_keeps_the_ids(self.secret(), self.pass_counter, entries);
            reshuffle_follows_the_shuffle(self.secret(), self.pass_counter, entries);
            lemma_enqueued_into_empty(reordered@);
        }
        container.push_ids_into_queue(reordered);
    }

    /// Deals with the first entry of the queue.
    fn scan_next<S: StateContainer<Tx>>(
        &mut self,
        container: &mut S,
        pass: &mut SchedulingPass,
    )
        requires
            resumable(*old(self), *old(container), *old(pass)),
            old(pass).phase == Phase::Scanning,
            pass_state(*old(self), *old(container), *old(pass)).can_scan(
                pass_limits(*old(self), *old(pass)),
            ),
        ensures
            resumable(*final(self), *final(container), *final(pass)),
            pass_state(*final(self), *final(container), *final(pass)) == pass_state(
                *old(self),
                *old(container),
                *old(pass),
            ).scan_one(pass_limits(*old(self), *old(pass))),
            same_settings(*old(self), *final(self)),
            same_targets(*old(pass), *final(pass)),
    {
        let ghost before = pass_state(*self, *container, *pass);
        let ghost limits = pass_limits(*self, *pass);
        proof {
            before.scanning_keeps_inv(limits);
        }
        let id = match container.pop() {
            Some(id) => id,
            None => {
                return ;
            },
        };
        pass.num_scanned = pass.num_scanned + 1;
        let attempt = match container.get_mut_transaction_state(id.id) {
            None => None,
            Some(state) => {
                if !state.has_transaction() {
                    None
                } else {
                    let batches = &self.common.batches;
                    let cus_in_flight = &self.common.cus_in_flight_per_thread;
                    let num_in_flight = &self.common.num_in_flight_per_thread;
                    let schedulable_threads = pass.schedulable_threads;
                    let selector = |thread_set: ThreadSet| -> (selected: usize)
                        requires
                            super::locks::threads_in(thread_set) != Set::<usize>::empty(),
                            super::locks::threads_in(thread_set).subset_of(
                                super::locks::threads_in(schedulable_threads),
                            ),
                        ensures
                            super::common::least_loaded(
                                super::common::batch_views(batches@),
                                cus_in_flight@,
                                num_in_flight@,
                                super::locks::threads_in(thread_set),
                                selected,
                            ),
                        { select_thread(thread_set, batches, cus_in_flight, num_in_flight) };
                    Some(
                        try_schedule_transaction(
                            state,
                            &mut self.common.account_locks,
                            schedulable_threads,
                            selector,
                        ),
                    )
                }
            },
        };
        match attempt {
            None => {},
            Some(Err(TransactionSchedulingError::UnschedulableConflicts)) => {
                pass.num_unschedulable_conflicts = pass.num_unschedulable_conflicts + 1;
                self.unschedulables.push(id);
            },
            Some(Err(TransactionSchedulingError::UnschedulableThread)) => {
                pass.num_unschedulable_threads = pass.num_unschedulable_threads + 1;
                self.unschedulables.push(id);
            },
            Some(Ok(info)) => {
                let thread_id = info.thread_id;
                proof {
                    let transaction = before.states[id.id].transaction->0;
                    let candidates = before.available(limits, transaction).intersect(
                        before.schedulable,
                    );
                    before.attempt_picks_least_loaded(limits, transaction);
                    assert(candidates.contains(thread_id));
                    match before.attempt(limits, transaction) {
                        Attempt::Thread(picked) => super::model::least_loaded_is_unique(
                            before.batches,
                            before.cus_in_flight,
                            before.num_in_flight,
                            candidates,
                            picked,
                            thread_id,
                        ),
                        _ => {},
                    }
                    assert(before.attempt(limits, transaction) == Attempt::Thread(thread_id));
                    assert(before.schedulable.contains(thread_id));
                }
                pass.num_scheduled = pass.num_scheduled.saturating_add(1);
                self.common.batches[thread_id].push(
                    id.id,
                    info.transaction,
                    info.max_age,
                    info.cost,
                );
                pass.budget = pass.budget.saturating_sub(info.cost);
                if self.common.batches[thread_id].ids.len()
                    >= self.config.target_transactions_per_batch {
                    pass.phase = Phase::Flushing { next: 0, last: false };
                }
                if self.common.cus_in_flight_per_thread[thread_id]
                    + self.common.batches[thread_id].total_cus >= pass.target_cu_per_thread {
                    pass.schedulable_threads.remove(thread_id);
                }
                proof {
                    let after = before.scan_one(limits);
                    let now = pass_state(*self, *container, *pass);
                    assert(now.batches =~= after.batches);
                    assert(now.states =~= after.states);
                }
            },
        }
        proof {
            let after = before.scan_one(limits);
            let now = pass_state(*self, *container, *pass);
            assert(now.states =~= after.states);
            assert(now =~= after);
        }
    }

    /// Begins a scheduling pass: shuffles the queue, and finds out how much may
    /// be scheduled and on which threads.
    pub fn schedule<S: StateContainer<Tx>>(&mut self, container: &mut S, budget: u64) -> (start:
        PassStart)
        requires
            old(self).common().wf(),
            old(self).underused_threads() != Set::<usize>::empty()
                ==> old(self).common().batches_empty(),
            old(container).wf(),
            old(self).fits(*old(container)),
        ensures
            final(container).wf(),
            final(container).states() == old(container).states(),
            (final(container).queue(), final(self).pass_counter()) == queue_for_pass(
                old(self).secret(),
                old(self).pass_counter(),
                old(container).queue(),
                old(container).states(),
            ),
            ids_of(final(container).queue()).to_multiset() == ids_of(
                recirculated(old(container).queue(), old(container).states()),
            ).to_multiset(),
            ({
                let states = old(container).states();
                let waiting = old(container).queue().filter(
                    |entry: TransactionPriorityId|
                        states.dom().contains(entry.id) && states[entry.id].transaction is Some,
                );
                let pass = final(self).pass_counter();
                let randomness = crate::digest::sha256(
                    crate::identity::ed25519_signature(
                        old(self).secret(),
                        vstd::bytes::spec_u64_to_le_bytes(pass) + crate::vrf::commit_of(
                            waiting.map_values(
                                |entry: TransactionPriorityId|
                                    vstd::bytes::spec_u64_to_le_bytes(entry.id),
                            ),
                        ),
                    ),
                );
                let order = crate::shuffle::shuffle_order(
                    waiting.len(),
                    (randomness, 0u64, 0u128),
                );
                let queue = final(container).queue();
                &&& waiting.len() < 2 ==> queue == waiting && pass == old(self).pass_counter()
                &&& waiting.len() >= 2 ==> {
                    &&& pass == (old(self).pass_counter() + 1) % 0x1_0000_0000_0000_0000
                    &&& queue.len() == waiting.len()
                    &&& order.no_duplicates()
                    &&& forall|k: int|
                        0 <= k < queue.len() ==> {
                            &&& 0 <= order[k] < waiting.len()
                            &&& (#[trigger] queue[k]).id == waiting[order[k]].id
                            &&& queue[k].priority == waiting.len() - k
                        }
                }
            }),
            final(self).common() == old(self).common(),
            final(self).unschedulables() == old(self).unschedulables(),
            final(self).config() == old(self).config(),
            final(self).secret() == old(self).secret(),
            match start {
                PassStart::Idle(summary) => {
                    &&& old(self).underused_threads() == Set::<usize>::empty()
                    &&& summary == SchedulingSummary {
                        starting_queue_size: final(container).queue().len() as usize,
                        starting_buffer_size: final(container).states().len() as usize,
                        num_scheduled: 0,
                        num_unschedulable_conflicts: 0,
                        num_unschedulable_threads: 0,
                    }
                },
                PassStart::Started(pass) => {
                    &&& old(self).underused_threads() != Set::<usize>::empty()
                    &&& super::locks::threads_in(pass.schedulable_threads)
                        == old(self).underused_threads()
                    &&& pass.starting_queue_size == final(container).queue().len()
                    &&& pass.starting_buffer_size == final(container).states().len()
                    &&& pass.target_cu_per_thread == old(self).target_cu_per_thread()
                    &&& pass.budget == super::model::spend(
                        budget,
                        super::common::sum(
                            old(self).common().cus_in_flight_per_thread@,
                        ) as u64,
                    )
                    &&& pass.num_scanned == 0
                    &&& pass.num_scheduled == 0
                    &&& pass.num_sent == 0
                    &&& pass.num_unschedulable_conflicts == 0
                    &&& pass.num_unschedulable_threads == 0
                    &&& pass.phase == Phase::Scanning
                    &&& resumable(*final(self), *final(container), pass)
                },
            },
            ({
                let num_threads = old(self).common().batches@.len() as int;
                let target = old(self).config().target_scheduled_cus as int / num_threads;
                let cus = old(self).common().cus_in_flight_per_thread@;
                let in_flight = cus.fold_left(0int, |total: int, cus: u64| total + cus);
                &&& start is Idle <==> forall|thread: int|
                    0 <= thread < num_threads ==> #[trigger] cus[thread] >= target
                &&& start matches PassStart::Started(pass) ==> {
                    &&& pass.budget == if in_flight <= budget {
                        budget - in_flight
                    } else {
                        0
                    }
                    &&& pass.target_cu_per_thread == target
                    &&& forall|thread: usize| #[trigger]
                        super::locks::threads_in(pass.schedulable_threads).contains(thread)
                            <==> thread < num_threads && cus[thread as int] < target
                }
            }),
    {
        proof {
            container.wf_facts();
            lemma_recirculated_len(container.queue(), container.states());
        }
        let ghost queue = container.queue();
        let ghost states = container.states();
        self.apply_ooze_ordering(container);
        proof {
            let keeps = |entry: TransactionPriorityId| waits(states, entry.id);
            assert(keeps =~= (|entry: TransactionPriorityId|
                states.dom().contains(entry.id) && states[entry.id].transaction is Some));
            let entries = recirculated(queue, states);
            if entries.len() >= 2 {
                reshuffle_follows_the_shuffle(self.secret(), self.pass_counter, entries);
            }
        }
        let in_flight: u64 = self.common.total_cus_in_flight();
        let budget: u64 = budget.saturating_sub(in_flight);
        let starting_queue_size: usize = container.queue_size();
        let starting_buffer_size: usize = container.buffer_size();
        let num_threads: usize = self.common.batches.len();
        let target_cu_per_thread: u64 = self.config.target_scheduled_cus / num_threads as u64;
        let mut schedulable_threads = ThreadSet::any(num_threads);
        let ghost cus = self.common.cus_in_flight_per_thread@;
        let mut thread_id: usize = 0;
        while thread_id < num_threads
            invariant
                thread_id <= num_threads <= 64,
                cus == self.common.cus_in_flight_per_thread@,
                cus.len() == num_threads,
                super::locks::threads_in(schedulable_threads) =~= Set::new(
                    |thread: usize|
                        thread < num_threads && (thread < thread_id ==> cus[thread as int]
                            < target_cu_per_thread),
                ),
            decreases num_threads - thread_id,
        {
            if self.common.cus_in_flight_per_thread[thread_id] >= target_cu_per_thread {
                schedulable_threads.remove(thread_id);
            }
            thread_id += 1;
        }
        assert(super::locks::threads_in(schedulable_threads) =~= old(self).underused_threads());
        proof {
            super::common::sum_is_fold(cus);
            if forall|thread: int|
                0 <= thread < num_threads ==> #[trigger] cus[thread] >= target_cu_per_thread {
                assert(old(self).underused_threads() =~= Set::<usize>::empty());
            } else {
                let thread = choose|thread: int|
                    0 <= thread < num_threads && !(#[trigger] cus[thread]
                        >= target_cu_per_thread);
                assert(old(self).underused_threads().contains(thread as usize));
            }
        }
        if no_threads(&schedulable_threads) {
            return PassStart::Idle(
                SchedulingSummary {
                    starting_queue_size,
                    starting_buffer_size,
                    num_scheduled: 0,
                    num_unschedulable_conflicts: 0,
                    num_unschedulable_threads: 0,
                },
            );
        }
        let pass = SchedulingPass {
            starting_queue_size,
            starting_buffer_size,
            target_cu_per_thread,
            schedulable_threads,
            budget,
            num_scanned: 0,
            num_scheduled: 0,
            num_sent: 0,
            num_unschedulable_conflicts: 0,
            num_unschedulable_threads: 0,
            phase: Phase::Scanning,
        };
        proof {
            let state = pass_state(*self, *container, pass);
            let limits = pass_limits(*self, pass);
            container.wf_facts();
            assert forall|thread: int| 0 <= thread < num_threads implies #[trigger] state.batches[thread]
                == super::common::BatchView::<Tx>::empty() by {
                assert(self.common.batches@[thread]@ == super::common::BatchView::<Tx>::empty());
            }
            super::model::lemma_nothing_batched(state.batches);
            assert forall|thread: int| 0 <= thread < num_threads implies {
                &&& #[trigger] super::common::thread_cus(
                    state.batches,
                    state.cus_in_flight,
                    thread,
                ) <= u64::MAX
                &&& super::common::thread_txs(state.batches, state.num_in_flight, thread)
                    + state.queue.len() <= usize::MAX
            } by {
                assert(state.batches[thread] == super::common::BatchView::<Tx>::empty());
                assert(old(self).common().num_in_flight_per_thread@[thread] + old(
                    container,
                ).queue().len() <= usize::MAX);
            }
            assert forall|i: int|
                0 <= i < state.queue.len() && state.waiting((#[trigger] state.queue[i]).id) implies
            state.states[state.queue[i].id].cost + limits.target_cu_per_thread <= u64::MAX by {
                let k = pass_keeps_to_the_queue(
                    old(container).queue(),
                    state.states,
                    state.queue,
                    i,
                );
                assert(old(container).queue()[k].id == state.queue[i].id);
            }
            assert(state.inv(limits));
        }
        PassStart::Started(pass)
    }

    /// Goes on with a pass until it asks for work to be sent, or is over.
    pub fn resume<S: StateContainer<Tx>>(
        &mut self,
        container: &mut S,
        pass: &mut SchedulingPass,
        event: PassEvent,
    ) -> (step: SchedulingStep<Tx>)
        requires
            resumable(*old(self), *old(container), *old(pass)),
        ensures
            match event {
                PassEvent::SendFailed => {
                    &&& step == SchedulingStep::<Tx>::Failed(
                        SchedulerError::DisconnectedSendChannel,
                    )
                    &&& *final(self) == *old(self)
                    &&& *final(container) == *old(container)
                    &&& *final(pass) == *old(pass)
                },
                PassEvent::Continue => {
                    let (after, request) = pass_state(
                        *old(self),
                        *old(container),
                        *old(pass),
                    ).advance(pass_limits(*old(self), *old(pass)));
                    &&& pass_state(*final(self), *final(container), *final(pass)) == after
                    &&& step.answers(request, summary_of(*old(pass), after))
                    &&& same_settings(*old(self), *final(self))
                    &&& same_targets(*old(pass), *final(pass))
                    &&& final(container).wf()
                    &&& final(self).common().wf()
                    &&& step is Send ==> resumable(*final(self), *final(container), *final(pass))
                    &&& step is Done ==> final(self).ready() && after.num_sent
                        == after.num_scheduled
                },
            },
            event == PassEvent::Continue ==> {
                let (after, request) = pass_state(
                    *old(self),
                    *old(container),
                    *old(pass),
                ).advance(pass_limits(*old(self), *old(pass)));
                match step {
                    SchedulingStep::Send { thread_id, work } => match request {
                        Request::Send { thread, batch } => {
                            &&& thread_id == thread
                            &&& work.ids@ == batch.ids
                            &&& work.transactions@ == batch.transactions
                            &&& work.max_ages@ == batch.max_ages
                        },
                        Request::Nothing => false,
                    },
                    SchedulingStep::Done(summary) => {
                        &&& request is Nothing
                        &&& summary.starting_queue_size == old(pass).starting_queue_size
                        &&& summary.starting_buffer_size == old(pass).starting_buffer_size
                        &&& summary.num_scheduled == final(pass).num_scheduled
                        &&& summary.num_scheduled == final(pass).num_sent
                        &&& summary.num_unschedulable_conflicts
                            == final(pass).num_unschedulable_conflicts
                        &&& summary.num_unschedulable_threads
                            == final(pass).num_unschedulable_threads
                        &&& final(self).unschedulables().len() == 0
                    },
                    SchedulingStep::Failed(_) => false,
                }
            },
            event == PassEvent::Continue ==> {
                let after = pass_state(*old(self), *old(container), *old(pass)).advance(
                    pass_limits(*old(self), *old(pass)),
                ).0;
                &&& final(container).queue() == after.queue
                &&& final(container).states() == after.states
                &&& super::locks::lock_table(final(self).common().account_locks) == after.locks
                &&& final(self).common().cus_in_flight_per_thread@ == after.cus_in_flight
                &&& final(self).common().num_in_flight_per_thread@ == after.num_in_flight
                &&& forall|thread: int|
                    0 <= thread < final(self).common().batches@.len() ==> {
                        &&& (#[trigger] final(self).common().batches@[thread]).ids@
                            == after.batches[thread].ids
                        &&& final(self).common().batches@[thread].transactions@
                            == after.batches[thread].transactions
                        &&& final(self).common().batches@[thread].total_cus
                            == after.batches[thread].total_cus
                    }
                &&& final(self).unschedulables() == after.unschedulables
                &&& super::locks::threads_in(final(pass).schedulable_threads) == after.schedulable
                &&& final(pass).budget == after.budget
                &&& final(pass).num_scanned == after.num_scanned
                &&& final(pass).num_scheduled == after.num_scheduled
                &&& final(pass).num_sent == after.num_sent
                &&& final(pass).num_unschedulable_conflicts == after.num_unschedulable_conflicts
                &&& final(pass).num_unschedulable_threads == after.num_unschedulable_threads
                &&& final(self).config() == old(self).config()
                &&& final(self).secret() == old(self).secret()
                &&& final(self).pass_counter() == old(self).pass_counter()
                &&& final(self).common().batches@.len() == old(self).common().batches@.len()
            },
    {
        if event == PassEvent::SendFailed {
            return SchedulingStep::Failed(SchedulerError::DisconnectedSendChannel);
        }
        let ghost limits = pass_limits(*self, *pass);
        let ghost start = pass_state(*self, *container, *pass);
        loop
            invariant
                event == PassEvent::Continue,
                resumable(*self, *container, *pass),
                same_settings(*old(self), *self),
                same_targets(*old(pass), *pass),
                limits == pass_limits(*self, *pass),
                limits == pass_limits(*old(self), *old(pass)),
                start == pass_state(*old(self), *old(container), *old(pass)),
                pass_state(*self, *container, *pass).advance(limits) == start.advance(limits),
            decreases
                    pass_state(*self, *container, *pass).queue.len(),
                    pass_state(*self, *container, *pass).phase_rank(),
                    pass_state(*self, *container, *pass).unvisited(limits),
        {
            let ghost now = pass_state(*self, *container, *pass);
            match pass.phase {
                Phase::Scanning => {
                    if pass.budget > 0 && pass.num_scanned
                        < self.config.max_scanned_transactions_per_scheduling_pass && !no_threads(
                        &pass.schedulable_threads,
                    ) && !container.is_empty() {
                        self.scan_next(container, pass);
                    } else {
                        proof {
                            now.changing_phase_keeps_inv(
                                limits,
                                Phase::Flushing { next: 0, last: true },
                            );
                        }
                        pass.phase = Phase::Flushing { next: 0, last: true };
                    }
                },
                Phase::Flushing { next, last } => {
                    if next < self.common.batches.len() {
                        if self.common.batches[next].ids.len() == 0 {
                            proof {
                                now.changing_phase_keeps_inv(
                                    limits,
                                    Phase::Flushing { next: (next + 1) as usize, last },
                                );
                            }
                            pass.phase = Phase::Flushing { next: next + 1, last };
                        } else {
                            proof {
                                now.sending_keeps_inv(limits, next, last);
                            }
                            pass.num_sent = pass.num_sent + self.common.batches[next].ids.len();
                            let work = self.common.take_batch(next);
                            pass.phase = Phase::Flushing { next: next + 1, last };
                            return SchedulingStep::Send { thread_id: next, work };
                        }
                    } else if last {
                        proof {
                            assert forall|thread: int| 0 <= thread < now.batches.len() implies now.batches[thread]
                                == super::common::BatchView::<Tx>::empty() by {
                                assert(now.batches[thread].wf());
                                assert(now.batches[thread]
                                    =~= super::common::BatchView::<Tx>::empty());
                            }
                            super::model::lemma_nothing_batched(now.batches);
                            assert forall|thread: int| 0 <= thread < self.common.batches@.len() implies (
                            #[trigger] self.common.batches@[thread])@ == super::common::BatchView::<
                                Tx,
                            >::empty() by {
                                assert(now.batches[thread]
                                    == super::common::BatchView::<Tx>::empty());
                            }
                        }
                        let mut unschedulables: Vec<TransactionPriorityId> = Vec::new();
                        unschedulables.append(&mut self.unschedulables);
                        assert(unschedulables@ =~= now.unschedulables);
                        container.push_ids_into_queue(unschedulables);
                        assert(pass_state(*self, *container, *pass) =~= now.finished());
                        return SchedulingStep::Done(
                            SchedulingSummary {
                                starting_queue_size: pass.starting_queue_size,
                                starting_buffer_size: pass.starting_buffer_size,
                                num_scheduled: pass.num_scheduled,
                                num_unschedulable_conflicts: pass.num_unschedulable_conflicts,
                                num_unschedulable_threads: pass.num_unschedulable_threads,
                            },
                        );
                    } else {
                        proof {
                            now.changing_phase_keeps_inv(limits, Phase::Scanning);
                        }
                        pass.phase = Phase::Scanning;
                    }
                },
            }
        }
    }

    /// How many times the queue has been shuffled.
    pub fn num_shuffles(&self) -> (num: u64)
        ensures
            num == self.pass_counter(),
    {
        self.pass_counter
    }

    /// What is kept for each worker thread.
    pub fn scheduling_common_mut(&mut self) -> (common: &mut SchedulingCommon<Tx>)
        ensures
            *common == old(self).common(),
            final(self).common() == *final(common),
            final(self).unschedulables() == old(self).unschedulables(),
            final(self).config() == old(self).config(),
            final(self).secret() == old(self).secret(),
            final(self).pass_counter() == old(self).pass_counter(),
    {
        &mut self.common
    }
}

/// The shuffle does not look at priorities: entries with the same ids in the
/// same places come out alike, whatever their priorities.
pub proof fn priorities_do_not_affect_reshuffle(
    secret: Seq<u8>,
    pass: u64,
    a: Seq<TransactionPriorityId>,
    b: Seq<TransactionPriorityId>,
)
    requires
        ids_of(a) == ids_of(b),
        pass_order(secret, pass, a).len() == a.len(),
        crate::shuffle::is_permutation(pass_order(secret, pass, a)),
    ensures
        pass_order(secret, pass, a) == pass_order(secret, pass, b),
        reshuffled(secret, pass, a) == reshuffled(secret, pass, b),
{
    assert(a.len() == ids_of(a).len() && b.len() == ids_of(b).len());
    assert forall|i: int| 0 <= i < a.len() implies #[trigger] a[i].id == b[i].id by {
        assert(ids_of(a)[i] == a[i].id);
        assert(ids_of(b)[i] == b[i].id);
    }
    assert(id_bytes(a) =~= id_bytes(b));
    assert(reshuffled(secret, pass, a) =~= reshuffled(secret, pass, b));
}

/// Where the shuffle moves the entries depends on which ids there are, not on
/// the places that they had.
pub proof fn pass_order_depends_on_ids_only(
    secret: Seq<u8>,
    pass: u64,
    a: Seq<TransactionPriorityId>,
    b: Seq<TransactionPriorityId>,
)
    requires
        ids_of(a).to_multiset() == ids_of(b).to_multiset(),
    ensures
        pass_order(secret, pass, a) == pass_order(secret, pass, b),
{
    let encode = |id: u64| vstd::bytes::spec_u64_to_le_bytes(id);
    vstd::seq_lib::to_multiset_len(ids_of(a));
    vstd::seq_lib::to_multiset_len(ids_of(b));
    assert(id_bytes(a) =~= ids_of(a).map_values(encode));
    assert(id_bytes(b) =~= ids_of(b).map_values(encode));
    crate::sorting::mapping_keeps_same_items(ids_of(a), ids_of(b), encode);
    crate::vrf::commit_is_order_independent(id_bytes(a), id_bytes(b));
}

/// The queue after a reshuffle follows the shuffle that the pass's randomness
/// seeds, whatever the length of the queue: at each place stands the id from the
/// place that the shuffle takes it from, and priorities count down to one.
pub proof fn reshuffle_follows_the_shuffle(
    secret: Seq<u8>,
    pass: u64,
    entries: Seq<TransactionPriorityId>,
)
    requires
        pass_order(secret, pass, entries).len() == entries.len(),
        crate::shuffle::is_permutation(pass_order(secret, pass, entries)),
        entries.len() <= u64::MAX,
    ensures
        ({
            let randomness = crate::digest::sha256(
                crate::identity::ed25519_signature(
                    secret,
                    vstd::bytes::spec_u64_to_le_bytes(pass) + crate::vrf::commit_of(
                        entries.map_values(
                            |entry: TransactionPriorityId|
                                vstd::bytes::spec_u64_to_le_bytes(entry.id),
                        ),
                    ),
                ),
            );
            let order = crate::shuffle::shuffle_order(entries.len(), (randomness, 0u64, 0u128));
            let queue = reshuffled(secret, pass, entries);
            &&& queue.len() == entries.len()
            &&& order.no_duplicates()
            &&& forall|k: int|
                0 <= k < queue.len() ==> {
                    &&& 0 <= order[k] < entries.len()
                    &&& (#[trigger] queue[k]).id == entries[order[k]].id
                    &&& queue[k].priority == entries.len() - k
                }
        }),
{
    assert(id_bytes(entries) =~= entries.map_values(
        |entry: TransactionPriorityId| vstd::bytes::spec_u64_to_le_bytes(entry.id),
    ));
}

/// The shuffle keeps every transaction: the queue afterwards holds the same ids,
/// as often.
pub proof fn reshuffle_keeps_the_ids(
    secret: Seq<u8>,
    pass: u64,
    entries: Seq<TransactionPriorityId>,
)
    requires
        pass_order(secret, pass, entries).len() == entries.len(),
        crate::shuffle::is_permutation(pass_order(secret, pass, entries)),
    ensures
        ids_of(reshuffled(secret, pass, entries)).to_multiset() == ids_of(entries).to_multiset(),
{
    let order = pass_order(secret, pass, entries);
    crate::shuffle::permuting_keeps_the_items(ids_of(entries), order);
    assert(ids_of(reshuffled(secret, pass, entries)) =~= crate::shuffle::permute(
        ids_of(entries),
        order,
    ));
}

/// Ids whose transactions were taken (scheduled, in flight) are not shuffled
/// back into the queue, and all others are.
pub proof fn only_waiting_entries_are_recirculated<Tx>(
    queue: Seq<TransactionPriorityId>,
    states: Map<u64, TransactionState<Tx>>,
    entry: TransactionPriorityId,
)
    ensures
        recirculated(queue, states).contains(entry) <==> queue.contains(entry)
            && waits(states, entry.id),
{
    broadcast use vstd::seq_lib::group_filter_ensures;

    let waiting = |entry: TransactionPriorityId| waits(states, entry.id);
    if queue.contains(entry) && waiting(entry) {
        let i = queue.index_of(entry);
        assert(queue[i] == entry);
    }
    if recirculated(queue, states).contains(entry) {
        queue.lemma_filter_contains_rev(waiting, entry);
        let i = recirculated(queue, states).index_of(entry);
        assert(recirculated(queue, states)[i] == entry);
    }
}

/// Every id in the queue of a pass was in the queue before, and its transaction
/// waits.
pub proof fn pass_keeps_to_the_queue<Tx>(
    queue: Seq<TransactionPriorityId>,
    states: Map<u64, TransactionState<Tx>>,
    pass_queue: Seq<TransactionPriorityId>,
    i: int,
) -> (k: int)
    requires
        ids_of(pass_queue).to_multiset() == ids_of(recirculated(queue, states)).to_multiset(),
        0 <= i < pass_queue.len(),
    ensures
        0 <= k < queue.len(),
        queue[k].id == pass_queue[i].id,
        waits(states, pass_queue[i].id),
{
    broadcast use vstd::seq_lib::group_to_multiset_ensures;

    let kept = recirculated(queue, states);
    let id = ids_of(pass_queue)[i];
    assert(ids_of(pass_queue).contains(id));
    assert(ids_of(pass_queue).to_multiset().count(id) > 0);
    assert(ids_of(kept).contains(id));
    let j = ids_of(kept).index_of(id);
    assert(kept.contains(kept[j]));
    only_waiting_entries_are_recirculated(queue, states, kept[j]);
    queue.index_of(kept[j])
}

/// Dropping entries does not lengthen the queue.
proof fn lemma_recirculated_len<Tx>(
    queue: Seq<TransactionPriorityId>,
    states: Map<u64, TransactionState<Tx>>,
)
    ensures
        recirculated(queue, states).len() <= queue.len(),
{
    queue.lemma_filter_len(
        |entry: TransactionPriorityId| waits(states, entry.id),
    );
}

} // verus!
