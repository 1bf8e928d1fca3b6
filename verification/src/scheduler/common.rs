//! What the scheduler keeps for each worker thread: the batch being filled, the
//! work in flight, and the account locks.
use super::locks::locks_new;
use super::transaction::{MaxAge, RuntimeTransaction};
use agave_scheduling_utils::thread_aware_account_locks::{ThreadAwareAccountLocks, ThreadSet};
use vstd::prelude::*;

verus! {

/// Transactions that are waiting to be sent to one thread.
#[derive(Debug)]
pub struct Batch<Tx> {
    pub ids: Vec<u64>,
    pub transactions: Vec<RuntimeTransaction<Tx>>,
    pub max_ages: Vec<MaxAge>,
    /// The length of each transaction on the wire, in bytes.
    pub transaction_bytes: Vec<u64>,
    /// The cost of all the transactions, in compute units.
    pub total_cus: u64,
}

/// What a batch holds.
#[verifier::ext_equal]
pub struct BatchView<Tx> {
    pub ids: Seq<u64>,
    pub transactions: Seq<RuntimeTransaction<Tx>>,
    pub max_ages: Seq<MaxAge>,
    pub transaction_bytes: Seq<u64>,
    pub total_cus: u64,
}

impl<Tx> BatchView<Tx> {
    pub open spec fn empty() -> Self {
        BatchView {
            ids: Seq::empty(),
            transactions: Seq::empty(),
            max_ages: Seq::empty(),
            transaction_bytes: Seq::empty(),
            total_cus: 0,
        }
    }

    /// Each transaction has an id, a maximum age and a length, and only a
    /// batch with transactions costs anything.
    pub open spec fn wf(self) -> bool {
        &&& self.transactions.len() == self.ids.len()
        &&& self.max_ages.len() == self.ids.len()
        &&& self.transaction_bytes.len() == self.ids.len()
        &&& self.ids.len() == 0 ==> self.total_cus == 0
    }

    /// The batch with one more transaction.
    pub open spec fn with(
        self,
        id: u64,
        transaction: RuntimeTransaction<Tx>,
        max_age: MaxAge,
        cost: u64,
    ) -> Self {
        BatchView {
            ids: self.ids.push(id),
            transactions: self.transactions.push(transaction),
            max_ages: self.max_ages.push(max_age),
            transaction_bytes: self.transaction_bytes.push(transaction.serialized_size),
            total_cus: (self.total_cus + cost) as u64,
        }
    }
}

impl<Tx> View for Batch<Tx> {
    type V = BatchView<Tx>;

    open spec fn view(&self) -> BatchView<Tx> {
        BatchView {
            ids: self.ids@,
            transactions: self.transactions@,
            max_ages: self.max_ages@,
            transaction_bytes: self.transaction_bytes@,
            total_cus: self.total_cus,
        }
    }
}

impl<Tx> Batch<Tx> {
    /// A batch without transactions.
    pub fn new() -> (batch: Self)
        ensures
            batch@ == BatchView::<Tx>::empty(),
            batch.ids@.len() == 0,
            batch.transactions@.len() == 0,
            batch.max_ages@.len() == 0,
            batch.transaction_bytes@.len() == 0,
            batch.total_cus == 0,
    {
        Batch {
            ids: Vec::new(),
            transactions: Vec::new(),
            max_ages: Vec::new(),
            transaction_bytes: Vec::new(),
            total_cus: 0,
        }
    }

    /// Appends a transaction.
    pub fn push(
        &mut self,
        id: u64,
        transaction: RuntimeTransaction<Tx>,
        max_age: MaxAge,
        cost: u64,
    )
        requires
            old(self).total_cus + cost <= u64::MAX,
        ensures
            final(self)@ == old(self)@.with(id, transaction, max_age, cost),
            final(self).ids@ == old(self).ids@.push(id),
            final(self).transactions@ == old(self).transactions@.push(transaction),
            final(self).max_ages@ == old(self).max_ages@.push(max_age),
            final(self).transaction_bytes@ == old(self).transaction_bytes@.push(
                transaction.serialized_size,
            ),
            final(self).total_cus == old(self).total_cus + cost,
    {
        self.transaction_bytes.push(transaction.serialized_size);
        self.ids.push(id);
        self.transactions.push(transaction);
        self.max_ages.push(max_age);
        self.total_cus = self.total_cus + cost;
    }
}

/// Work for one thread: the transactions that it is to execute.
#[derive(Debug)]
pub struct ConsumeWork<Tx> {
    pub ids: Vec<u64>,
    pub transactions: Vec<RuntimeTransaction<Tx>>,
    pub max_ages: Vec<MaxAge>,
}

impl<Tx> ConsumeWork<Tx> {
    /// The work holds the transactions of the batch, in order.
    pub open spec fn carries(self, batch: BatchView<Tx>) -> bool {
        &&& self.ids@ == batch.ids
        &&& self.transactions@ == batch.transactions
        &&& self.max_ages@ == batch.max_ages
    }
}

/// What schedulers keep for each worker thread.
pub struct SchedulingCommon<Tx> {
    pub account_locks: ThreadAwareAccountLocks,
    /// For each thread, the batch that is being filled.
    pub batches: Vec<Batch<Tx>>,
    /// For each thread, the cost of the work that it was sent and has not
    /// finished, in compute units.
    pub cus_in_flight_per_thread: Vec<u64>,
    /// For each thread, how many transactions it was sent and has not finished.
    pub num_in_flight_per_thread: Vec<usize>,
}

/// The batches of all threads.
pub open spec fn batch_views<Tx>(batches: Seq<Batch<Tx>>) -> Seq<BatchView<Tx>> {
    batches.map_values(|batch: Batch<Tx>| batch@)
}

/// The sum of the numbers.
pub open spec fn sum(numbers: Seq<u64>) -> nat
    decreases numbers.len(),
{
    if numbers.len() == 0 {
        0
    } else {
        sum(numbers.drop_last()) + numbers.last() as nat
    }
}

/// The cost of the work that `thread` has or is about to be sent.
pub open spec fn thread_cus<Tx>(
    batches: Seq<BatchView<Tx>>,
    cus_in_flight: Seq<u64>,
    thread: int,
) -> int {
    batches[thread].total_cus + cus_in_flight[thread]
}

/// How many transactions `thread` has or is about to be sent.
pub open spec fn thread_txs<Tx>(
    batches: Seq<BatchView<Tx>>,
    num_in_flight: Seq<usize>,
    thread: int,
) -> int {
    batches[thread].ids.len() + num_in_flight[thread]
}

/// Thread `a` is to be preferred to thread `b`: it has less costly work, or as
/// costly work in fewer transactions, or a lower number.
pub open spec fn preferred<Tx>(
    batches: Seq<BatchView<Tx>>,
    cus_in_flight: Seq<u64>,
    num_in_flight: Seq<usize>,
    a: int,
    b: int,
) -> bool {
    let cus_a = thread_cus(batches, cus_in_flight, a);
    let cus_b = thread_cus(batches, cus_in_flight, b);
    let txs_a = thread_txs(batches, num_in_flight, a);
    let txs_b = thread_txs(batches, num_in_flight, b);
    cus_a < cus_b || (cus_a == cus_b && (txs_a < txs_b || (txs_a == txs_b && a <= b)))
}

/// `thread` is the one among `threads` that has the least work.
pub open spec fn least_loaded<Tx>(
    batches: Seq<BatchView<Tx>>,
    cus_in_flight: Seq<u64>,
    num_in_flight: Seq<usize>,
    threads: Set<usize>,
    thread: usize,
) -> bool {
    &&& threads.contains(thread)
    &&& forall|other: usize| #[trigger]
        threads.contains(other) ==> preferred(
            batches,
            cus_in_flight,
            num_in_flight,
            thread as int,
            other as int,
        )
}

/// Picks the thread in `thread_set` that has the least work.
pub fn select_thread<Tx>(
    thread_set: ThreadSet,
    batches: &Vec<Batch<Tx>>,
    cus_in_flight: &Vec<u64>,
    num_in_flight: &Vec<usize>,
) -> (selected: usize)
    requires
        batches@.len() <= 64,
        cus_in_flight@.len() == batches@.len(),
        num_in_flight@.len() == batches@.len(),
        super::locks::threads_in(thread_set) != Set::<usize>::empty(),
        forall|thread: usize| #[trigger]
            super::locks::threads_in(thread_set).contains(thread) ==> {
                &&& thread < batches@.len()
                &&& thread_cus(batch_views(batches@), cus_in_flight@, thread as int) <= u64::MAX
                &&& thread_txs(batch_views(batches@), num_in_flight@, thread as int) <= usize::MAX
            },
    ensures
        least_loaded(
            batch_views(batches@),
            cus_in_flight@,
            num_in_flight@,
            super::locks::threads_in(thread_set),
            selected,
        ),
        super::locks::threads_in(thread_set).contains(selected),
        forall|other: usize| #[trigger]
            super::locks::threads_in(thread_set).contains(other) ==> {
                let cus = batches@[selected as int].total_cus + cus_in_flight@[selected as int];
                let other_cus = batches@[other as int].total_cus + cus_in_flight@[other as int];
                let txs = batches@[selected as int].ids@.len() + num_in_flight@[selected as int];
                let other_txs = batches@[other as int].ids@.len() + num_in_flight@[other as int];
                ||| cus < other_cus
                ||| cus == other_cus && txs < other_txs
                ||| cus == other_cus && txs == other_txs && selected <= other
            },
{
    let ghost threads = super::locks::threads_in(thread_set);
    let ghost views = batch_views(batches@);
    let mut best: Option<usize> = None;
    let mut best_cus: u64 = 0;
    let mut best_txs: usize = 0;
    let mut thread: usize = 0;
    while thread < batches.len()
        invariant
            thread <= batches@.len() <= 64,
            threads == super::locks::threads_in(thread_set),
            views == batch_views(batches@),
            cus_in_flight@.len() == batches@.len(),
            num_in_flight@.len() == batches@.len(),
            forall|t: usize| #[trigger]
                threads.contains(t) ==> {
                    &&& t < batches@.len()
                    &&& thread_cus(views, cus_in_flight@, t as int) <= u64::MAX
                    &&& thread_txs(views, num_in_flight@, t as int) <= usize::MAX
                },
            match best {
                None => forall|t: usize| t < thread ==> !#[trigger] threads.contains(t),
                Some(b) => {
                    &&& threads.contains(b)
                    &&& b < thread
                    &&& best_cus == thread_cus(views, cus_in_flight@, b as int)
                    &&& best_txs == thread_txs(views, num_in_flight@, b as int)
                    &&& forall|t: usize| #[trigger]
                        threads.contains(t) && t < thread ==> preferred(
                            views,
                            cus_in_flight@,
                            num_in_flight@,
                            b as int,
                            t as int,
                        )
                },
            },
        decreases batches@.len() - thread,
    {
        if thread_set.contains(thread) {
            assert(threads.contains(thread));
            let cus: u64 = batches[thread].total_cus + cus_in_flight[thread];
            let txs: usize = batches[thread].ids.len() + num_in_flight[thread];
            let better: bool = best.is_none() || cus < best_cus || (cus == best_cus && txs
                < best_txs);
            if better {
                best = Some(thread);
                best_cus = cus;
                best_txs = txs;
            }
        }
        thread += 1;
    }
    proof {
        assert(best is Some) by {
            let t = choose|t: usize| threads.contains(t);
            if forall|t: usize| !threads.contains(t) {
                assert(threads =~= Set::<usize>::empty());
            }
            assert(threads.contains(t));
        }
    }
    best.unwrap()
}

impl<Tx> SchedulingCommon<Tx> {
    /// The number of worker threads.
    pub open spec fn num_threads(&self) -> nat {
        self.batches@.len()
    }

    /// There is at least one thread and no more than a thread set can hold,
    /// and the same threads are counted everywhere.
    pub open spec fn wf(&self) -> bool {
        &&& 0 < self.num_threads() <= 64
        &&& super::locks::lock_threads(self.account_locks) == self.num_threads()
        &&& self.cus_in_flight_per_thread@.len() == self.num_threads()
        &&& self.num_in_flight_per_thread@.len() == self.num_threads()
    }

    /// No batch holds a transaction.
    pub open spec fn batches_empty(&self) -> bool {
        forall|thread: int|
            0 <= thread < self.batches@.len() ==> (#[trigger] self.batches@[thread])@
                == BatchView::<Tx>::empty()
    }

    /// Nothing is locked, batched or in flight.
    pub fn new(num_threads: usize) -> (common: Self)
        requires
            0 < num_threads <= 64,
        ensures
            common.wf(),
            common.num_threads() == num_threads,
            common.batches_empty(),
            super::locks::lock_table(common.account_locks)
                == super::locks::LockTable::unlocked(),
            forall|thread: int|
                0 <= thread < num_threads ==> {
                    &&& #[trigger] common.cus_in_flight_per_thread@[thread] == 0
                    &&& common.num_in_flight_per_thread@[thread] == 0
                },
    {
        let mut batches: Vec<Batch<Tx>> = Vec::new();
        let mut cus_in_flight_per_thread: Vec<u64> = Vec::new();
        let mut num_in_flight_per_thread: Vec<usize> = Vec::new();
        let mut thread: usize = 0;
        while thread < num_threads
            invariant
                thread <= num_threads,
                batches@.len() == thread,
                cus_in_flight_per_thread@.len() == thread,
                num_in_flight_per_thread@.len() == thread,
                forall|t: int|
                    0 <= t < thread ==> (#[trigger] batches@[t])@ == BatchView::<Tx>::empty(),
                forall|t: int|
                    0 <= t < thread ==> {
                        &&& #[trigger] cus_in_flight_per_thread@[t] == 0
                        &&& num_in_flight_per_thread@[t] == 0
                    },
            decreases num_threads - thread,
        {
            batches.push(Batch::new());
            cus_in_flight_per_thread.push(0);
            num_in_flight_per_thread.push(0);
            thread += 1;
        }
        SchedulingCommon {
            account_locks: locks_new(num_threads),
            batches,
            cus_in_flight_per_thread,
            num_in_flight_per_thread,
        }
    }

    /// The cost of all the work in flight.
    pub fn total_cus_in_flight(&self) -> (total: u64)
        requires
            sum(self.cus_in_flight_per_thread@) <= u64::MAX,
        ensures
            total == sum(self.cus_in_flight_per_thread@),
            total == self.cus_in_flight_per_thread@.fold_left(
                0int,
                |total: int, cus: u64| total + cus,
            ),
    {
        proof {
            sum_is_fold(self.cus_in_flight_per_thread@);
        }
        let cus = &self.cus_in_flight_per_thread;
        let mut total: u64 = 0;
        let mut thread: usize = 0;
        assert(cus@.take(0) =~= Seq::<u64>::empty());
        while thread < cus.len()
            invariant
                thread <= cus@.len(),
                total == sum(cus@.take(thread as int)),
                sum(cus@) <= u64::MAX,
            decreases cus@.len() - thread,
        {
            proof {
                assert(cus@.take(thread + 1).drop_last() =~= cus@.take(thread as int));
                lemma_sum_prefix(cus@, thread + 1);
            }
            total = total + cus[thread];
            thread += 1;
        }
        assert(cus@.take(thread as int) =~= cus@);
        total
    }

    /// Takes the batch of a thread to be sent as work, and counts it as in
    /// flight.
    pub fn take_batch(&mut self, thread: usize) -> (work: ConsumeWork<Tx>)
        requires
            old(self).wf(),
            thread < old(self).num_threads(),
            thread_cus(
                batch_views(old(self).batches@),
                old(self).cus_in_flight_per_thread@,
                thread as int,
            ) <= u64::MAX,
            thread_txs(
                batch_views(old(self).batches@),
                old(self).num_in_flight_per_thread@,
                thread as int,
            ) <= usize::MAX,
        ensures
            final(self).wf(),
            final(self).account_locks == old(self).account_locks,
            work.carries(old(self).batches@[thread as int]@),
            batch_views(final(self).batches@) == batch_views(old(self).batches@).update(
                thread as int,
                BatchView::empty(),
            ),
            final(self).cus_in_flight_per_thread@ == old(self).cus_in_flight_per_thread@.update(
                thread as int,
                thread_cus(
                    batch_views(old(self).batches@),
                    old(self).cus_in_flight_per_thread@,
                    thread as int,
                ) as u64,
            ),
            final(self).num_in_flight_per_thread@ == old(self).num_in_flight_per_thread@.update(
                thread as int,
                thread_txs(
                    batch_views(old(self).batches@),
                    old(self).num_in_flight_per_thread@,
                    thread as int,
                ) as usize,
            ),
            work.ids@ == old(self).batches@[thread as int].ids@,
            work.transactions@ == old(self).batches@[thread as int].transactions@,
            work.max_ages@ == old(self).batches@[thread as int].max_ages@,
            final(self).num_threads() == old(self).num_threads(),
            final(self).batches@[thread as int].ids@.len() == 0,
            final(self).batches@[thread as int].total_cus == 0,
            final(self).cus_in_flight_per_thread@[thread as int] == old(
                self,
            ).cus_in_flight_per_thread@[thread as int] + old(
                self,
            ).batches@[thread as int].total_cus,
            final(self).num_in_flight_per_thread@[thread as int] == old(
                self,
            ).num_in_flight_per_thread@[thread as int] + old(
                self,
            ).batches@[thread as int].ids@.len(),
            forall|other: int|
                0 <= other < old(self).num_threads() && other != thread ==> {
                    &&& #[trigger] final(self).batches@[other] == old(self).batches@[other]
                    &&& final(self).cus_in_flight_per_thread@[other] == old(
                        self,
                    ).cus_in_flight_per_thread@[other]
                    &&& final(self).num_in_flight_per_thread@[other] == old(
                        self,
                    ).num_in_flight_per_thread@[other]
                },
    {
        let mut batch: Batch<Tx> = Batch::new();
        std::mem::swap(&mut batch, &mut self.batches[thread]);
        self.cus_in_flight_per_thread[thread] =
            batch.total_cus + self.cus_in_flight_per_thread[thread];
        self.num_in_flight_per_thread[thread] =
            batch.ids.len() + self.num_in_flight_per_thread[thread];
        assert(batch_views(self.batches@) =~= batch_views(old(self).batches@).update(
            thread as int,
            BatchView::empty(),
        ));
        ConsumeWork { ids: batch.ids, transactions: batch.transactions, max_ages: batch.max_ages }
    }
}

/// The sum adds up every number.
pub proof fn sum_is_fold(numbers: Seq<u64>)
    ensures
        sum(numbers) == numbers.fold_left(0int, |total: int, number: u64| total + number),
    decreases numbers.len(),
{
    if numbers.len() > 0 {
        sum_is_fold(numbers.drop_last());
    }
}

/// A prefix sums to no more than the whole.
proof fn lemma_sum_prefix(numbers: Seq<u64>, len: int)
    requires
        0 <= len <= numbers.len(),
    ensures
        sum(numbers.take(len)) <= sum(numbers),
    decreases numbers.len(),
{
    if len == numbers.len() {
        assert(numbers.take(len) =~= numbers);
    } else {
        lemma_sum_prefix(numbers.drop_last(), len);
        assert(numbers.drop_last().take(len) =~= numbers.take(len));
    }
}

} // verus!
