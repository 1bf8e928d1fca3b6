//! A scheduling pass as a state machine.
use super::common::BatchView;
use super::locks::LockTable;
use super::transaction::{RuntimeTransaction, TransactionPriorityId, TransactionState};
use vstd::prelude::*;

verus! {

/// What a scheduling pass is doing.
#[derive(Debug, PartialEq, Eq, Structural, Clone, Copy)]
pub enum Phase {
    /// Taking transactions from the queue.
    Scanning,
    /// Sending the batches of the threads from `next` on. When all are sent
    /// the pass is over (`last`), or goes on scanning.
    Flushing { next: usize, last: bool },
}

/// What stays the same throughout a pass.
pub struct PassLimits {
    pub num_threads: usize,
    /// A thread with this much work or more gets no further transactions.
    pub target_cu_per_thread: u64,
    pub max_scanned: usize,
    /// A batch with this many transactions or more is sent.
    pub batch_target: usize,
}

/// The state of a pass: the container, what is kept for each thread, and how
/// far the pass has come.
#[verifier::ext_equal]
pub struct PassState<Tx> {
    pub queue: Seq<TransactionPriorityId>,
    pub states: Map<u64, TransactionState<Tx>>,
    pub locks: LockTable,
    pub batches: Seq<BatchView<Tx>>,
    pub cus_in_flight: Seq<u64>,
    pub num_in_flight: Seq<usize>,
    /// The entries that could not be scheduled, in the order of scanning.
    pub unschedulables: Seq<TransactionPriorityId>,
    /// The threads that may get further transactions.
    pub schedulable: Set<usize>,
    /// The compute units that may still be scheduled.
    pub budget: u64,
    pub num_scanned: nat,
    pub num_scheduled: nat,
    pub num_sent: nat,
    pub num_unschedulable_conflicts: nat,
    pub num_unschedulable_threads: nat,
    pub phase: Phase,
}

/// What came of looking for a thread for a transaction.
pub enum Attempt {
    /// No thread may lock the transaction's accounts.
    Conflicts,
    /// No thread that may lock the accounts may get further transactions.
    NoThread,
    /// The transaction goes to this thread.
    Thread(usize),
}

/// What a pass asks for next.
pub enum Request<Tx> {
    /// To send the transactions of the batch to the thread.
    Send { thread: usize, batch: BatchView<Tx> },
    /// Nothing: the pass is over.
    Nothing,
}

/// `total` compute units less `cost`, but not less than nothing.
pub open spec fn spend(total: u64, cost: u64) -> u64 {
    if cost <= total {
        (total - cost) as u64
    } else {
        0
    }
}

/// How many transactions are in the batches.
pub open spec fn batched<Tx>(batches: Seq<BatchView<Tx>>) -> nat
    decreases batches.len(),
{
    if batches.len() == 0 {
        0
    } else {
        batched(batches.drop_last()) + batches.last().ids.len()
    }
}

impl<Tx> PassState<Tx> {
    /// The entry's transaction is buffered and has not been taken.
    pub open spec fn waiting(self, id: u64) -> bool {
        self.states.dom().contains(id) && self.states[id].transaction is Some
    }

    /// The threads that may lock the transaction's accounts.
    pub open spec fn available(
        self,
        limits: PassLimits,
        transaction: RuntimeTransaction<Tx>,
    ) -> Set<usize> {
        self.locks.available(
            limits.num_threads as nat,
            transaction.accounts(true),
            transaction.accounts(false),
        )
    }

    /// The thread that gets the transaction: of those that may lock its
    /// accounts and may get further transactions, the one with the least work.
    pub open spec fn attempt(
        self,
        limits: PassLimits,
        transaction: RuntimeTransaction<Tx>,
    ) -> Attempt {
        let available = self.available(limits, transaction);
        let candidates = available.intersect(self.schedulable);
        if available == Set::<usize>::empty() {
            Attempt::Conflicts
        } else if candidates == Set::<usize>::empty() {
            Attempt::NoThread
        } else {
            Attempt::Thread(
                choose|thread: usize|
                    super::common::least_loaded(
                        self.batches,
                        self.cus_in_flight,
                        self.num_in_flight,
                        candidates,
                        thread,
                    ),
            )
        }
    }

    /// The pass goes on taking transactions from the queue.
    pub open spec fn can_scan(self, limits: PassLimits) -> bool {
        &&& self.budget > 0
        &&& self.num_scanned < limits.max_scanned
        &&& self.schedulable != Set::<usize>::empty()
        &&& self.queue.len() > 0
    }

    /// The first entry has been taken from the queue.
    pub open spec fn popped(self) -> Self {
        PassState { queue: self.queue.drop_first(), num_scanned: self.num_scanned + 1, ..self }
    }

    /// The transaction with the given id has been put into the batch of
    /// `thread`.
    pub open spec fn scheduled_on(self, limits: PassLimits, id: u64, thread: usize) -> Self {
        let state = self.states[id];
        let transaction = state.transaction->0;
        let batches = self.batches.update(
            thread as int,
            self.batches[thread as int].with(id, transaction, state.max_age, state.cost),
        );
        PassState {
            states: self.states.insert(id, state.taken()),
            locks: self.locks.lock(
                transaction.key_list(true),
                transaction.key_list(false),
                thread,
            ),
            batches,
            budget: spend(self.budget, state.cost),
            num_scheduled: self.num_scheduled + 1,
            schedulable: if super::common::thread_cus(batches, self.cus_in_flight, thread as int)
                >= limits.target_cu_per_thread {
                self.schedulable.remove(thread)
            } else {
                self.schedulable
            },
            phase: if batches[thread as int].ids.len() >= limits.batch_target {
                Phase::Flushing { next: 0, last: false }
            } else {
                self.phase
            },
            ..self
        }
    }

    /// The first entry of the queue has been dealt with: put into a batch, set
    /// aside, or dropped where its transaction is gone.
    pub open spec fn scan_one(self, limits: PassLimits) -> Self {
        let entry = self.queue[0];
        let popped = self.popped();
        if !self.waiting(entry.id) {
            popped
        } else {
            match self.attempt(limits, self.states[entry.id].transaction->0) {
                Attempt::Conflicts => PassState {
                    unschedulables: self.unschedulables.push(entry),
                    num_unschedulable_conflicts: self.num_unschedulable_conflicts + 1,
                    ..popped
                },
                Attempt::NoThread => PassState {
                    unschedulables: self.unschedulables.push(entry),
                    num_unschedulable_threads: self.num_unschedulable_threads + 1,
                    ..popped
                },
                Attempt::Thread(thread) => popped.scheduled_on(limits, entry.id, thread),
            }
        }
    }

    /// The batch of `thread` has been taken to be sent.
    pub open spec fn sent(self, thread: usize, last: bool) -> Self {
        let t = thread as int;
        PassState {
            batches: self.batches.update(t, BatchView::empty()),
            cus_in_flight: self.cus_in_flight.update(
                t,
                super::common::thread_cus(self.batches, self.cus_in_flight, t) as u64,
            ),
            num_in_flight: self.num_in_flight.update(
                t,
                super::common::thread_txs(self.batches, self.num_in_flight, t) as usize,
            ),
            num_sent: self.num_sent + self.batches[t].ids.len(),
            phase: Phase::Flushing { next: (thread + 1) as usize, last },
            ..self
        }
    }

    /// The entries that were set aside are back in the queue.
    pub open spec fn finished(self) -> Self {
        PassState {
            queue: super::container::enqueued(self.queue, self.unschedulables),
            unschedulables: Seq::empty(),
            ..self
        }
    }

    /// With the queue as it is, a pass that is flushing goes on to scanning, and
    /// one that is scanning goes on to flushing for the last time.
    pub open spec fn phase_rank(self) -> nat {
        match self.phase {
            Phase::Flushing { next, last } => if last {
                0
            } else {
                2
            },
            Phase::Scanning => 1,
        }
    }

    /// How many threads a pass that is flushing has not come to yet.
    pub open spec fn unvisited(self, limits: PassLimits) -> nat {
        match self.phase {
            Phase::Flushing { next, last } => if next < limits.num_threads {
                (limits.num_threads - next) as nat
            } else {
                0
            },
            Phase::Scanning => 0,
        }
    }

    /// Where the pass stands when it next needs something from outside, and
    /// what it asks for.
    pub open spec fn advance(self, limits: PassLimits) -> (Self, Request<Tx>)
        decreases self.queue.len(), self.phase_rank(), self.unvisited(limits),
    {
        match self.phase {
            Phase::Scanning => if self.can_scan(limits) {
                self.scan_one(limits).advance(limits)
            } else {
                PassState {
                    phase: Phase::Flushing { next: 0, last: true },
                    ..self
                }.advance(limits)
            },
            Phase::Flushing { next, last } => if next < limits.num_threads {
                if self.batches[next as int].ids.len() == 0 {
                    PassState {
                        phase: Phase::Flushing { next: (next + 1) as usize, last },
                        ..self
                    }.advance(limits)
                } else {
                    (
                        self.sent(next, last),
                        Request::Send { thread: next, batch: self.batches[next as int] },
                    )
                }
            } else if last {
                (self.finished(), Request::Nothing)
            } else {
                PassState { phase: Phase::Scanning, ..self }.advance(limits)
            },
        }
    }

    /// What holds of a pass at every moment.
    pub open spec fn inv(self, limits: PassLimits) -> bool {
        &&& 0 < limits.num_threads <= 64
        &&& self.batches.len() == limits.num_threads
        &&& self.cus_in_flight.len() == limits.num_threads
        &&& self.num_in_flight.len() == limits.num_threads
        &&& forall|thread: int|
            0 <= thread < limits.num_threads ==> (#[trigger] self.batches[thread]).wf()
        &&& forall|thread: int|
            0 <= thread < limits.num_threads ==> {
                &&& #[trigger] super::common::thread_cus(self.batches, self.cus_in_flight, thread)
                    <= u64::MAX
                &&& super::common::thread_txs(self.batches, self.num_in_flight, thread)
                    + self.queue.len() <= usize::MAX
            }
        &&& forall|thread: usize| #[trigger]
            self.schedulable.contains(thread) ==> {
                &&& thread < limits.num_threads
                &&& super::common::thread_cus(self.batches, self.cus_in_flight, thread as int)
                    < limits.target_cu_per_thread
            }
        &&& forall|i: int|
            0 <= i < self.queue.len() && self.waiting((#[trigger] self.queue[i]).id)
                ==> self.states[self.queue[i].id].cost + limits.target_cu_per_thread <= u64::MAX
        &&& super::container::in_pop_order(self.queue)
        &&& self.num_scanned + self.queue.len() <= usize::MAX
        &&& self.unschedulables.len() + self.queue.len() <= usize::MAX
        &&& self.num_scheduled + self.num_unschedulable_conflicts
            + self.num_unschedulable_threads <= self.num_scanned
        &&& self.num_scheduled == self.num_sent + batched(self.batches)
        &&& match self.phase {
            Phase::Scanning => true,
            Phase::Flushing { next, last } => {
                &&& next <= limits.num_threads
                &&& forall|thread: int|
                    0 <= thread < next ==> (#[trigger] self.batches[thread]).ids.len() == 0
            },
        }
    }
}

/// At most one thread has the least work.
pub proof fn least_loaded_is_unique<Tx>(
    batches: Seq<BatchView<Tx>>,
    cus_in_flight: Seq<u64>,
    num_in_flight: Seq<usize>,
    threads: Set<usize>,
    a: usize,
    b: usize,
)
    requires
        super::common::least_loaded(batches, cus_in_flight, num_in_flight, threads, a),
        super::common::least_loaded(batches, cus_in_flight, num_in_flight, threads, b),
    ensures
        a == b,
{
    assert(threads.contains(a) && threads.contains(b));
}

/// Of the threads in a non-empty set, all numbered below `bound`, one has the
/// least work.
pub proof fn least_loaded_exists<Tx>(
    batches: Seq<BatchView<Tx>>,
    cus_in_flight: Seq<u64>,
    num_in_flight: Seq<usize>,
    threads: Set<usize>,
    bound: nat,
)
    requires
        threads != Set::<usize>::empty(),
        forall|thread: usize| #[trigger] threads.contains(thread) ==> thread < bound,
    ensures
        exists|thread: usize|
            super::common::least_loaded(batches, cus_in_flight, num_in_flight, threads, thread),
    decreases bound,
{
    if bound == 0 || bound - 1 > usize::MAX {
        if bound == 0 {
            assert(threads =~= Set::<usize>::empty());
        } else {
            least_loaded_exists(batches, cus_in_flight, num_in_flight, threads, (bound - 1) as nat);
        }
    } else {
        let top = (bound - 1) as usize;
        let rest = threads.remove(top);
        if rest == Set::<usize>::empty() {
            assert forall|other: usize| threads.contains(other) implies other == top by {
                if other != top {
                    assert(rest.contains(other));
                }
            }
            if !threads.contains(top) {
                assert(threads =~= Set::<usize>::empty());
            }
            assert(super::common::least_loaded(
                batches,
                cus_in_flight,
                num_in_flight,
                threads,
                top,
            ));
        } else {
            least_loaded_exists(batches, cus_in_flight, num_in_flight, rest, (bound - 1) as nat);
            let best = choose|thread: usize|
                super::common::least_loaded(batches, cus_in_flight, num_in_flight, rest, thread);
            assert(rest.contains(best));
            if threads.contains(top) && super::common::preferred(
                batches,
                cus_in_flight,
                num_in_flight,
                top as int,
                best as int,
            ) {
                assert forall|other: usize| #[trigger]
                    threads.contains(other) implies super::common::preferred(
                    batches,
                    cus_in_flight,
                    num_in_flight,
                    top as int,
                    other as int,
                ) by {
                    if other != top {
                        assert(rest.contains(other));
                    }
                }
                assert(super::common::least_loaded(
                    batches,
                    cus_in_flight,
                    num_in_flight,
                    threads,
                    top,
                ));
            } else {
                assert forall|other: usize| #[trigger]
                    threads.contains(other) implies super::common::preferred(
                    batches,
                    cus_in_flight,
                    num_in_flight,
                    best as int,
                    other as int,
                ) by {
                    if other != top {
                        assert(rest.contains(other));
                    }
                }
                assert(super::common::least_loaded(
                    batches,
                    cus_in_flight,
                    num_in_flight,
                    threads,
                    best,
                ));
            }
        }
    }
}

/// Changing one batch changes the number of batched transactions by as much.
proof fn lemma_batched_update<Tx>(batches: Seq<BatchView<Tx>>, at: int, batch: BatchView<Tx>)
    requires
        0 <= at < batches.len(),
    ensures
        batched(batches.update(at, batch)) + batches[at].ids.len() == batched(batches)
            + batch.ids.len(),
    decreases batches.len(),
{
    let updated = batches.update(at, batch);
    if at == batches.len() - 1 {
        assert(updated.drop_last() =~= batches.drop_last());
    } else {
        lemma_batched_update(batches.drop_last(), at, batch);
        assert(updated.drop_last() =~= batches.drop_last().update(at, batch));
    }
}

/// Empty batches hold no transactions.
pub proof fn lemma_nothing_batched<Tx>(batches: Seq<BatchView<Tx>>)
    requires
        forall|thread: int|
            0 <= thread < batches.len() ==> (#[trigger] batches[thread]).ids.len() == 0,
    ensures
        batched(batches) == 0,
    decreases batches.len(),
{
    if batches.len() > 0 {
        assert forall|thread: int| 0 <= thread < batches.drop_last().len() implies (
        #[trigger] batches.drop_last()[thread]).ids.len() == 0 by {
            assert(batches.drop_last()[thread] == batches[thread]);
        }
        lemma_nothing_batched(batches.drop_last());
    }
}

impl<Tx> PassState<Tx> {
    /// The thread that gets a transaction may lock its accounts, may get
    /// further transactions, and has the least work of all such threads.
    pub proof fn attempt_picks_least_loaded(
        self,
        limits: PassLimits,
        transaction: RuntimeTransaction<Tx>,
    )
        requires
            self.inv(limits),
        ensures
            match self.attempt(limits, transaction) {
                Attempt::Thread(thread) => super::common::least_loaded(
                    self.batches,
                    self.cus_in_flight,
                    self.num_in_flight,
                    self.available(limits, transaction).intersect(self.schedulable),
                    thread,
                ),
                _ => true,
            },
    {
        let candidates = self.available(limits, transaction).intersect(self.schedulable);
        if candidates != Set::<usize>::empty() {
            least_loaded_exists(
                self.batches,
                self.cus_in_flight,
                self.num_in_flight,
                candidates,
                limits.num_threads as nat,
            );
        }
    }

    /// Dealing with an entry keeps what holds of a pass.
    pub proof fn scanning_keeps_inv(self, limits: PassLimits)
        requires
            self.inv(limits),
            self.phase == Phase::Scanning,
            self.can_scan(limits),
        ensures
            self.scan_one(limits).inv(limits),
    {
        let entry = self.queue[0];
        let after = self.scan_one(limits);
        let popped = self.popped();
        assert(super::container::in_pop_order(popped.queue));
        assert forall|i: int|
            0 <= i < after.queue.len() && after.waiting((#[trigger] after.queue[i]).id) implies
        after.states[after.queue[i].id].cost + limits.target_cu_per_thread <= u64::MAX by {
            assert(after.queue[i] == self.queue[i + 1]);
            assert(self.waiting(self.queue[i + 1].id));
        }
        if self.waiting(entry.id) {
            let state = self.states[entry.id];
            self.attempt_picks_least_loaded(limits, state.transaction->0);
            match self.attempt(limits, state.transaction->0) {
                Attempt::Thread(thread) => {
                    assert(self.schedulable.contains(thread));
                    let t = thread as int;
                    let batch = self.batches[t].with(
                        entry.id,
                        state.transaction->0,
                        state.max_age,
                        state.cost,
                    );
                    assert(super::common::thread_cus(self.batches, self.cus_in_flight, t)
                        < limits.target_cu_per_thread);
                    lemma_batched_update(self.batches, t, batch);
                    assert(after.batches[t] == batch);
                    assert forall|other: int| 0 <= other < limits.num_threads implies {
                        &&& #[trigger] super::common::thread_cus(
                            after.batches,
                            after.cus_in_flight,
                            other,
                        ) <= u64::MAX
                        &&& super::common::thread_txs(after.batches, after.num_in_flight, other)
                            + after.queue.len() <= usize::MAX
                    } by {
                        assert(super::common::thread_cus(self.batches, self.cus_in_flight, other)
                            <= u64::MAX);
                    }
                    assert forall|other: usize| #[trigger]
                        after.schedulable.contains(other) implies {
                        &&& other < limits.num_threads
                        &&& super::common::thread_cus(
                            after.batches,
                            after.cus_in_flight,
                            other as int,
                        ) < limits.target_cu_per_thread
                    } by {
                        assert(self.schedulable.contains(other));
                    }
                },
                _ => {},
            }
        }
        if !(self.waiting(entry.id) && self.attempt(
            limits,
            self.states[entry.id].transaction->0,
        ) is Thread) {
            assert forall|other: int| 0 <= other < limits.num_threads implies {
                &&& #[trigger] super::common::thread_cus(after.batches, after.cus_in_flight, other)
                    <= u64::MAX
                &&& super::common::thread_txs(after.batches, after.num_in_flight, other)
                    + after.queue.len() <= usize::MAX
            } by {
                assert(super::common::thread_cus(self.batches, self.cus_in_flight, other)
                    <= u64::MAX);
            }
        }
    }

    /// Taking a batch to be sent keeps what holds of a pass.
    pub proof fn sending_keeps_inv(self, limits: PassLimits, next: usize, last: bool)
        requires
            self.inv(limits),
            self.phase == (Phase::Flushing { next, last }),
            next < limits.num_threads,
        ensures
            self.sent(next, last).inv(limits),
    {
        let after = self.sent(next, last);
        lemma_batched_update(self.batches, next as int, BatchView::empty());
        assert(super::common::thread_cus(self.batches, self.cus_in_flight, next as int)
            <= u64::MAX);
        assert forall|thread: int| 0 <= thread < limits.num_threads implies {
            &&& #[trigger] super::common::thread_cus(after.batches, after.cus_in_flight, thread)
                == super::common::thread_cus(self.batches, self.cus_in_flight, thread)
            &&& super::common::thread_txs(after.batches, after.num_in_flight, thread)
                == super::common::thread_txs(self.batches, self.num_in_flight, thread)
        } by {
            assert(super::common::thread_cus(self.batches, self.cus_in_flight, thread)
                <= u64::MAX);
        }
        assert forall|thread: usize| #[trigger] after.schedulable.contains(thread) implies {
            &&& thread < limits.num_threads
            &&& super::common::thread_cus(after.batches, after.cus_in_flight, thread as int)
                < limits.target_cu_per_thread
        } by {
            assert(self.schedulable.contains(thread));
        }
    }

    /// Going on to another phase keeps what holds of a pass.
    pub proof fn changing_phase_keeps_inv(self, limits: PassLimits, phase: Phase)
        requires
            self.inv(limits),
            match phase {
                Phase::Scanning => true,
                Phase::Flushing { next, last } => {
                    ||| next == 0
                    ||| self.phase == (Phase::Flushing { next: (next - 1) as usize, last })
                        && next <= limits.num_threads && self.batches[next - 1].ids.len() == 0
                },
            },
        ensures
            (PassState { phase, ..self }).inv(limits),
    {
    }
}

} // verus!
