//! What holds of every scheduling pass.
use super::common::BatchView;
use super::container::StateContainer;
use super::locks::LockTable;
use super::model::{Attempt, PassLimits, PassState, Phase, Request};
use super::ooze_scheduler::{OozeScheduler, SchedulingPass};
use super::transaction::{RuntimeTransaction, TransactionPriorityId, TransactionState};
use vstd::prelude::*;

verus! {

/// The measure by which a pass comes closer to its end goes down from `a` to
/// `b`.
pub open spec fn progresses<Tx>(limits: PassLimits, a: PassState<Tx>, b: PassState<Tx>) -> bool {
    ||| b.queue.len() < a.queue.len()
    ||| b.queue.len() == a.queue.len() && b.phase_rank() < a.phase_rank()
    ||| b.queue.len() == a.queue.len() && b.phase_rank() == a.phase_rank() && b.unvisited(limits)
        < a.unvisited(limits)
}

/// The state one step further on, where the pass needs nothing from outside for
/// that step.
pub open spec fn step<Tx>(limits: PassLimits, state: PassState<Tx>) -> Option<PassState<Tx>> {
    match state.phase {
        Phase::Scanning => if state.can_scan(limits) {
            Some(state.scan_one(limits))
        } else {
            Some(PassState { phase: Phase::Flushing { next: 0, last: true }, ..state })
        },
        Phase::Flushing { next, last } => if next < limits.num_threads {
            if state.batches[next as int].ids.len() == 0 {
                Some(
                    PassState { phase: Phase::Flushing { next: (next + 1) as usize, last }, ..state },
                )
            } else {
                None
            }
        } else if last {
            None
        } else {
            Some(PassState { phase: Phase::Scanning, ..state })
        },
    }
}

proof fn lemma_step<Tx>(limits: PassLimits, state: PassState<Tx>)
    ensures
        match step(limits, state) {
            Some(next) => {
                &&& progresses(limits, state, next)
                &&& state.advance(limits) == next.advance(limits)
            },
            None => match state.phase {
                Phase::Scanning => false,
                Phase::Flushing { next, last } => if next < limits.num_threads {
                    &&& state.batches[next as int].ids.len() > 0
                    &&& state.advance(limits) == (
                        state.sent(next, last),
                        Request::<Tx>::Send { thread: next, batch: state.batches[next as int] },
                    )
                } else {
                    &&& last
                    &&& state.advance(limits) == (state.finished(), Request::<Tx>::Nothing)
                },
            },
        },
{
}

proof fn lemma_step_keeps_inv<Tx>(limits: PassLimits, state: PassState<Tx>)
    requires
        state.inv(limits),
    ensures
        step(limits, state) is Some ==> step(limits, state)->0.inv(limits),
{
    match state.phase {
        Phase::Scanning => if state.can_scan(limits) {
            state.scanning_keeps_inv(limits);
        } else {
            state.changing_phase_keeps_inv(limits, Phase::Flushing { next: 0, last: true });
        },
        Phase::Flushing { next, last } => if next < limits.num_threads {
            if state.batches[next as int].ids.len() == 0 {
                state.changing_phase_keeps_inv(
                    limits,
                    Phase::Flushing { next: (next + 1) as usize, last },
                );
            }
        } else if !last {
            state.changing_phase_keeps_inv(limits, Phase::Scanning);
        },
    }
}

/// Every batch that a pass asks to be sent holds a transaction, and brings the
/// pass closer to its end: a pass whose batches are sent comes to an end.
pub proof fn sending_makes_progress<Tx>(limits: PassLimits, state: PassState<Tx>)
    ensures
        match state.advance(limits).1 {
            Request::Send { thread, batch } => {
                &&& thread < limits.num_threads
                &&& batch.ids.len() > 0
                &&& progresses(limits, state, state.advance(limits).0)
            },
            Request::Nothing => true,
        },
    decreases state.queue.len(), state.phase_rank(), state.unvisited(limits),
{
    lemma_step(limits, state);
    match step(limits, state) {
        Some(next) => sending_makes_progress(limits, next),
        None => {},
    }
}

/// The state in which a pass ends when everything that it asks to be sent is
/// sent.
pub open spec fn completed<Tx>(limits: PassLimits, state: PassState<Tx>) -> PassState<Tx>
    decreases state.queue.len(), state.phase_rank(), state.unvisited(limits),
{
    proof {
        sending_makes_progress(limits, state);
    }
    match state.advance(limits).1 {
        Request::Send { thread, batch } => completed(limits, state.advance(limits).0),
        Request::Nothing => state.advance(limits).0,
    }
}

/// A pass keeps its invariant for as long as it asks for work to be sent.
pub proof fn pass_keeps_inv<Tx>(limits: PassLimits, state: PassState<Tx>)
    requires
        state.inv(limits),
    ensures
        state.advance(limits).1 is Send ==> state.advance(limits).0.inv(limits),
    decreases state.queue.len(), state.phase_rank(), state.unvisited(limits),
{
    lemma_step(limits, state);
    lemma_step_keeps_inv(limits, state);
    match step(limits, state) {
        Some(next) => pass_keeps_inv(limits, next),
        None => match state.phase {
            Phase::Flushing { next, last } => if next < limits.num_threads {
                state.sending_keeps_inv(limits, next, last);
            },
            Phase::Scanning => {},
        },
    }
}

/// When a pass ends, every transaction that it has scheduled has been sent, no
/// batch holds a transaction, and nothing is set aside.
pub proof fn every_scheduled_transaction_is_sent<Tx>(limits: PassLimits, state: PassState<Tx>)
    requires
        state.inv(limits),
    ensures
        ({
            let end = completed(limits, state);
            &&& end.num_sent == end.num_scheduled
            &&& end.unschedulables.len() == 0
            &&& forall|thread: int|
                0 <= thread < limits.num_threads ==> (#[trigger] end.batches[thread]).ids.len()
                    == 0
        }),
    decreases state.queue.len(), state.phase_rank(), state.unvisited(limits),
{
    lemma_step(limits, state);
    lemma_step_keeps_inv(limits, state);
    sending_makes_progress(limits, state);
    pass_keeps_inv(limits, state);
    match step(limits, state) {
        Some(next) => {
            lemma_completed_step(limits, state);
            every_scheduled_transaction_is_sent(limits, next);
        },
        None => match state.advance(limits).1 {
            Request::Send { thread, batch } => {
                every_scheduled_transaction_is_sent(limits, state.advance(limits).0);
            },
            Request::Nothing => {
                super::model::lemma_nothing_batched(state.batches);
            },
        },
    }
}

proof fn lemma_completed_step<Tx>(limits: PassLimits, state: PassState<Tx>)
    ensures
        step(limits, state) is Some ==> completed(limits, state) == completed(
            limits,
            step(limits, state)->0,
        ),
{
    lemma_step(limits, state);
}

/// Every state is related to itself by `kept`, and no step of a pass breaks the
/// relation between an earlier state and the present one.
pub open spec fn kept_by_steps<Tx>(
    limits: PassLimits,
    kept: spec_fn(PassState<Tx>, PassState<Tx>) -> bool,
) -> bool {
    &&& forall|a: PassState<Tx>| #[trigger] kept(a, a)
    &&& forall|a: PassState<Tx>, b: PassState<Tx>|
        #[trigger] kept(a, b) && b.inv(limits) && b.phase == Phase::Scanning && b.can_scan(limits)
            ==> kept(a, b.scan_one(limits))
    &&& forall|a: PassState<Tx>, b: PassState<Tx>, phase: Phase|
        kept(a, b) ==> #[trigger] kept(a, PassState { phase, ..b })
    &&& forall|a: PassState<Tx>, b: PassState<Tx>, next: usize, last: bool|
        kept(a, b) && next < limits.num_threads && b.inv(limits) ==> #[trigger] kept(
            a,
            b.sent(next, last),
        )
    &&& forall|a: PassState<Tx>, b: PassState<Tx>|
        #[trigger] kept(a, b) && b.inv(limits) ==> kept(a, b.finished())
}

proof fn lemma_kept_to_the_end<Tx>(
    limits: PassLimits,
    kept: spec_fn(PassState<Tx>, PassState<Tx>) -> bool,
    start: PassState<Tx>,
    state: PassState<Tx>,
)
    requires
        kept_by_steps(limits, kept),
        state.inv(limits),
        kept(start, state),
    ensures
        kept(start, completed(limits, state)),
        kept(start, state.advance(limits).0),
    decreases state.queue.len(), state.phase_rank(), state.unvisited(limits),
{
    lemma_step(limits, state);
    lemma_step_keeps_inv(limits, state);
    sending_makes_progress(limits, state);
    pass_keeps_inv(limits, state);
    match step(limits, state) {
        Some(next) => {
            lemma_completed_step(limits, state);
            assert(kept(start, next));
            lemma_kept_to_the_end(limits, kept, start, next);
        },
        None => match state.advance(limits).1 {
            Request::Send { thread, batch } => {
                let after = state.advance(limits).0;
                assert(kept(start, after));
                lemma_kept_to_the_end(limits, kept, start, after);
            },
            Request::Nothing => {},
        },
    }
}

/// `b` is reached from `a` without scheduling a transaction twice: one that is
/// waiting in `b` was waiting in `a`, and is unchanged.
pub open spec fn only_takes<Tx>(a: PassState<Tx>, b: PassState<Tx>) -> bool {
    forall|id: u64| #[trigger] b.waiting(id) ==> a.waiting(id) && b.states[id] == a.states[id]
}

/// A transaction that has been taken stays taken: whatever is waiting at a
/// later moment of a pass, or at its end, was waiting before.
pub proof fn taken_transactions_stay_taken<Tx>(limits: PassLimits, state: PassState<Tx>)
    requires
        state.inv(limits),
    ensures
        only_takes(state, state.advance(limits).0),
        only_takes(state, completed(limits, state)),
{
    let kept = |a: PassState<Tx>, b: PassState<Tx>| only_takes(a, b);
    assert(kept_by_steps(limits, kept)) by {
        assert forall|a: PassState<Tx>, b: PassState<Tx>|
            #[trigger] kept(a, b) && b.inv(limits) && b.phase == Phase::Scanning && b.can_scan(
                limits,
            ) implies kept(a, b.scan_one(limits)) by {
            assert forall|id: u64| #[trigger] b.scan_one(limits).waiting(id) implies a.waiting(id)
                && b.scan_one(limits).states[id] == a.states[id] by {
                assert(b.waiting(id));
            }
        }
        assert forall|a: PassState<Tx>, b: PassState<Tx>, phase: Phase| kept(a, b) implies #[trigger] kept(
            a,
            PassState { phase, ..b },
        ) by {
            assert forall|id: u64| #[trigger] (PassState { phase, ..b }).waiting(id) implies a.waiting(id)
                && b.states[id] == a.states[id] by {
                assert(b.waiting(id));
            }
        }
        assert forall|a: PassState<Tx>, b: PassState<Tx>, next: usize, last: bool|
            kept(a, b) && next < limits.num_threads && b.inv(limits) implies #[trigger] kept(
            a,
            b.sent(next, last),
        ) by {
            assert forall|id: u64| #[trigger] b.sent(next, last).waiting(id) implies a.waiting(id)
                && b.states[id] == a.states[id] by {
                assert(b.waiting(id));
            }
        }
        assert forall|a: PassState<Tx>, b: PassState<Tx>|
            #[trigger] kept(a, b) && b.inv(limits) implies kept(a, b.finished()) by {
            assert forall|id: u64| #[trigger] b.finished().waiting(id) implies a.waiting(id)
                && b.states[id] == a.states[id] by {
                assert(b.waiting(id));
            }
        }
    }
    lemma_kept_to_the_end(limits, kept, state, state);
}

/// The entry is in the queue, or set aside to go back there.
pub open spec fn queued<Tx>(state: PassState<Tx>, entry: TransactionPriorityId) -> bool {
    state.queue.contains(entry) || state.unschedulables.contains(entry)
}

/// Every entry that was queued in `a` and whose transaction is still waiting in
/// `b` is queued in `b`.
pub open spec fn loses_nothing<Tx>(a: PassState<Tx>, b: PassState<Tx>) -> bool {
    forall|entry: TransactionPriorityId| #[trigger]
        queued(a, entry) && b.waiting(entry.id) ==> queued(b, entry)
}

proof fn lemma_finished_queues<Tx>(state: PassState<Tx>, entry: TransactionPriorityId)
    requires
        queued(state, entry),
    ensures
        state.finished().queue.contains(entry),
{
    super::container::enqueued_holds(state.queue, state.unschedulables);
    let all = state.queue.to_set().union(state.unschedulables.to_set());
    assert(all.contains(entry));
    assert(state.finished().queue.to_set().contains(entry));
}

/// No transaction is lost: an entry that was queued, and whose transaction has
/// not been taken, is still queued, and is back in the queue when the pass ends.
pub proof fn waiting_transactions_stay_queued<Tx>(limits: PassLimits, state: PassState<Tx>)
    requires
        state.inv(limits),
    ensures
        loses_nothing(state, state.advance(limits).0),
        loses_nothing(state, completed(limits, state)),
        forall|entry: TransactionPriorityId| #[trigger]
            queued(state, entry) && completed(limits, state).waiting(entry.id) ==> completed(
                limits,
                state,
            ).queue.contains(entry),
{
    let kept = |a: PassState<Tx>, b: PassState<Tx>| loses_nothing(a, b);
    assert(kept_by_steps(limits, kept)) by {
        assert forall|a: PassState<Tx>, b: PassState<Tx>|
            #[trigger] kept(a, b) && b.inv(limits) && b.phase == Phase::Scanning && b.can_scan(
                limits,
            ) implies kept(a, b.scan_one(limits)) by {
            lemma_scanning_loses_nothing(limits, b);
            let after = b.scan_one(limits);
            assert forall|entry: TransactionPriorityId| #[trigger] queued(a, entry)
                && after.waiting(entry.id) implies queued(after, entry) by {
                assert(b.waiting(entry.id));
                assert(queued(b, entry));
            }
        }
        assert forall|a: PassState<Tx>, b: PassState<Tx>, phase: Phase| kept(a, b) implies #[trigger] kept(
            a,
            PassState { phase, ..b },
        ) by {
            let after = PassState { phase, ..b };
            assert forall|entry: TransactionPriorityId| #[trigger] queued(a, entry)
                && after.waiting(entry.id) implies queued(after, entry) by {
                assert(b.waiting(entry.id));
                assert(queued(b, entry));
            }
        }
        assert forall|a: PassState<Tx>, b: PassState<Tx>, next: usize, last: bool|
            kept(a, b) && next < limits.num_threads && b.inv(limits) implies #[trigger] kept(
            a,
            b.sent(next, last),
        ) by {
            let after = b.sent(next, last);
            assert forall|entry: TransactionPriorityId| #[trigger] queued(a, entry)
                && after.waiting(entry.id) implies queued(after, entry) by {
                assert(b.waiting(entry.id));
                assert(queued(b, entry));
            }
        }
        assert forall|a: PassState<Tx>, b: PassState<Tx>|
            #[trigger] kept(a, b) && b.inv(limits) implies kept(a, b.finished()) by {
            let after = b.finished();
            assert forall|entry: TransactionPriorityId| #[trigger] queued(a, entry)
                && after.waiting(entry.id) implies queued(after, entry) by {
                assert(b.waiting(entry.id));
                assert(queued(b, entry));
                lemma_finished_queues(b, entry);
            }
        }
        assert forall|a: PassState<Tx>| #[trigger] kept(a, a) by {
        }
    }
    lemma_kept_to_the_end(limits, kept, state, state);
    every_scheduled_transaction_is_sent(limits, state);
}

proof fn lemma_scanning_loses_nothing<Tx>(limits: PassLimits, state: PassState<Tx>)
    requires
        state.inv(limits),
        state.can_scan(limits),
    ensures
        forall|entry: TransactionPriorityId| #[trigger]
            queued(state, entry) && state.scan_one(limits).waiting(entry.id) ==> queued(
                state.scan_one(limits),
                entry,
            ),
        forall|id: u64| #[trigger] state.scan_one(limits).waiting(id) ==> state.waiting(id),
{
    let after = state.scan_one(limits);
    let head = state.queue[0];
    assert forall|entry: TransactionPriorityId| #[trigger] queued(state, entry) && after.waiting(
        entry.id,
    ) implies queued(after, entry) by {
        if state.unschedulables.contains(entry) {
            let i = state.unschedulables.index_of(entry);
            assert(after.unschedulables[i] == entry);
        } else if entry == head {
            assert(state.waiting(head.id));
            match state.attempt(limits, state.states[head.id].transaction->0) {
                Attempt::Thread(thread) => {},
                _ => {
                    assert(after.unschedulables[state.unschedulables.len() as int] == head);
                },
            }
        } else {
            let i = state.queue.index_of(entry);
            assert(after.queue[i - 1] == entry);
        }
    }
}

/// A thread that holds an account for writing is the only one that holds it, at
/// every later moment of a pass.
pub proof fn write_locks_stay_exclusive<Tx>(limits: PassLimits, state: PassState<Tx>)
    requires
        state.inv(limits),
        state.locks.exclusive(),
    ensures
        state.advance(limits).0.locks.exclusive(),
        completed(limits, state).locks.exclusive(),
{
    let kept = |a: PassState<Tx>, b: PassState<Tx>| a.locks.exclusive() ==> b.locks.exclusive();
    assert(kept_by_steps(limits, kept)) by {
        assert forall|a: PassState<Tx>, b: PassState<Tx>|
            #[trigger] kept(a, b) && b.inv(limits) && b.phase == Phase::Scanning && b.can_scan(
                limits,
            ) implies kept(a, b.scan_one(limits)) by {
            let head = b.queue[0];
            if b.locks.exclusive() && b.waiting(head.id) {
                let transaction = b.states[head.id].transaction->0;
                b.attempt_picks_least_loaded(limits, transaction);
                match b.attempt(limits, transaction) {
                    Attempt::Thread(thread) => {
                        super::locks::locking_keeps_exclusion(
                            b.locks,
                            limits.num_threads as nat,
                            transaction.key_list(true),
                            transaction.key_list(false),
                            thread,
                        );
                    },
                    _ => {},
                }
            }
        }
    }
    lemma_kept_to_the_end(limits, kept, state, state);
}

/// `b` is no further over the limits than `a`: no more is scanned than the limit
/// allows, and no compute units come back into the budget.
pub open spec fn within_limits<Tx>(
    limits: PassLimits,
    a: PassState<Tx>,
    b: PassState<Tx>,
) -> bool {
    &&& a.num_scanned <= limits.max_scanned ==> b.num_scanned <= limits.max_scanned
    &&& b.budget <= a.budget
    &&& b.schedulable.subset_of(a.schedulable)
}

/// A pass scans no more entries than its limit, never raises its budget, and
/// never makes a thread schedulable again.
pub proof fn pass_stays_within_limits<Tx>(limits: PassLimits, state: PassState<Tx>)
    requires
        state.inv(limits),
    ensures
        within_limits(limits, state, state.advance(limits).0),
        within_limits(limits, state, completed(limits, state)),
{
    let kept = |a: PassState<Tx>, b: PassState<Tx>| within_limits(limits, a, b);
    assert(kept_by_steps(limits, kept));
    lemma_kept_to_the_end(limits, kept, state, state);
}

/// A transaction is put only into the batch of a thread that may lock its
/// accounts and has less work than its target, and that has the least work of
/// all such threads.
pub proof fn scheduled_on_least_loaded_thread<Tx>(
    limits: PassLimits,
    state: PassState<Tx>,
    id: u64,
)
    requires
        state.inv(limits),
        state.waiting(id),
    ensures
        ({
            let transaction = state.states[id].transaction->0;
            match state.attempt(limits, transaction) {
                Attempt::Thread(thread) => {
                    let available = state.available(limits, transaction);
                    &&& available.contains(thread)
                    &&& super::common::thread_cus(
                        state.batches,
                        state.cus_in_flight,
                        thread as int,
                    ) < limits.target_cu_per_thread
                    &&& super::common::least_loaded(
                        state.batches,
                        state.cus_in_flight,
                        state.num_in_flight,
                        available.intersect(state.schedulable),
                        thread,
                    )
                },
                _ => true,
            }
        }),
{
    state.attempt_picks_least_loaded(limits, state.states[id].transaction->0);
    match state.attempt(limits, state.states[id].transaction->0) {
        Attempt::Thread(thread) => {
            assert(state.schedulable.contains(thread));
        },
        _ => {},
    }
}

/// The transaction with the given id is in the batch of some thread.
pub open spec fn in_batch<Tx>(state: PassState<Tx>, id: u64) -> bool {
    exists|thread: int|
        0 <= thread < state.batches.len() && (#[trigger] state.batches[thread]).ids.contains(id)
}

/// The ids of the transactions that are sent from the given state of a pass to
/// its end, in the order of sending.
pub open spec fn dispatched<Tx>(limits: PassLimits, state: PassState<Tx>) -> Seq<u64>
    decreases state.queue.len(), state.phase_rank(), state.unvisited(limits),
{
    proof {
        sending_makes_progress(limits, state);
    }
    match state.advance(limits).1 {
        Request::Send { thread, batch } => batch.ids + dispatched(limits, state.advance(limits).0),
        Request::Nothing => Seq::empty(),
    }
}

proof fn lemma_dispatched_step<Tx>(limits: PassLimits, state: PassState<Tx>)
    ensures
        step(limits, state) is Some ==> dispatched(limits, state) == dispatched(
            limits,
            step(limits, state)->0,
        ),
{
    lemma_step(limits, state);
}

proof fn lemma_step_and_batches<Tx>(limits: PassLimits, state: PassState<Tx>, id: u64)
    requires
        state.inv(limits),
        step(limits, state) is Some,
    ensures
        in_batch(state, id) ==> in_batch(step(limits, state)->0, id),
        state.waiting(id) ==> step(limits, state)->0.waiting(id) || in_batch(
            step(limits, state)->0,
            id,
        ),
        in_batch(step(limits, state)->0, id) ==> in_batch(state, id) || state.waiting(id),
        step(limits, state)->0.waiting(id) ==> state.waiting(id),
{
    let after = step(limits, state)->0;
    if state.phase == Phase::Scanning && state.can_scan(limits) && state.waiting(
        state.queue[0].id,
    ) {
        let entry = state.queue[0];
        let transaction = state.states[entry.id].transaction->0;
        state.attempt_picks_least_loaded(limits, transaction);
        match state.attempt(limits, transaction) {
            Attempt::Thread(picked) => {
                assert(state.schedulable.contains(picked));
                let p = picked as int;
                let ids = state.batches[p].ids;
                assert(after.batches[p].ids == ids.push(entry.id));
                assert(after.batches[p].ids[ids.len() as int] == entry.id);
                if in_batch(state, id) {
                    let t = choose|t: int|
                        0 <= t < state.batches.len() && (#[trigger] state.batches[t]).ids.contains(
                            id,
                        );
                    let k = state.batches[t].ids.index_of(id);
                    assert(after.batches[t].ids[k] == id);
                    assert(after.batches[t].ids.contains(id));
                }
                if id == entry.id {
                    assert(after.batches[p].ids.contains(id));
                }
                if in_batch(after, id) && id != entry.id {
                    let t = choose|t: int|
                        0 <= t < after.batches.len() && (#[trigger] after.batches[t]).ids.contains(
                            id,
                        );
                    let k = after.batches[t].ids.index_of(id);
                    assert(state.batches[t].ids[k] == id);
                    assert(state.batches[t].ids.contains(id));
                }
            },
            _ => {
                assert(after.batches == state.batches);
            },
        }
    } else {
        assert(after.batches == state.batches);
    }
}

proof fn lemma_send_and_batches<Tx>(limits: PassLimits, state: PassState<Tx>, id: u64)
    requires
        state.inv(limits),
        step(limits, state) is None,
        state.advance(limits).1 is Send,
    ensures
        ({
            let (after, request) = state.advance(limits);
            &&& in_batch(state, id) ==> in_batch(after, id) || request->batch.ids.contains(id)
            &&& request->batch.ids.contains(id) ==> in_batch(state, id)
            &&& in_batch(after, id) ==> in_batch(state, id)
            &&& after.waiting(id) == state.waiting(id)
        }),
{
    lemma_step(limits, state);
    let (after, request) = state.advance(limits);
    let sent = request->thread as int;
    assert(request->batch == state.batches[sent]);
    if in_batch(state, id) && !request->batch.ids.contains(id) {
        let t = choose|t: int|
            0 <= t < state.batches.len() && (#[trigger] state.batches[t]).ids.contains(id);
        assert(after.batches[t].ids.contains(id));
    }
    if in_batch(after, id) {
        let t = choose|t: int|
            0 <= t < after.batches.len() && (#[trigger] after.batches[t]).ids.contains(id);
        assert(t != sent);
        assert(state.batches[t].ids.contains(id));
    }
}

/// What is taken is sent, and nothing else is: a transaction that is in a batch,
/// or waits and no longer does when the pass ends, is among those sent; and
/// every transaction sent was in a batch or waiting.
pub proof fn taken_transactions_are_sent<Tx>(
    limits: PassLimits,
    state: PassState<Tx>,
    id: u64,
)
    requires
        state.inv(limits),
    ensures
        in_batch(state, id) ==> dispatched(limits, state).contains(id),
        state.waiting(id) && !completed(limits, state).waiting(id) ==> dispatched(
            limits,
            state,
        ).contains(id),
        dispatched(limits, state).contains(id) ==> in_batch(state, id) || state.waiting(id),
    decreases state.queue.len(), state.phase_rank(), state.unvisited(limits),
{
    lemma_step(limits, state);
    lemma_step_keeps_inv(limits, state);
    sending_makes_progress(limits, state);
    pass_keeps_inv(limits, state);
    match step(limits, state) {
        Some(next) => {
            lemma_completed_step(limits, state);
            lemma_dispatched_step(limits, state);
            lemma_step_and_batches(limits, state, id);
            taken_transactions_are_sent(limits, next, id);
        },
        None => match state.advance(limits).1 {
            Request::Send { thread, batch } => {
                let after = state.advance(limits).0;
                lemma_send_and_batches(limits, state, id);
                taken_transactions_are_sent(limits, after, id);
                let rest = dispatched(limits, after);
                let all = batch.ids + rest;
                assert(all == dispatched(limits, state));
                if batch.ids.contains(id) {
                    assert(all[batch.ids.index_of(id)] == id);
                }
                if rest.contains(id) {
                    assert(all[batch.ids.len() + rest.index_of(id)] == id);
                }
                if all.contains(id) {
                    let k = all.index_of(id);
                    if k < batch.ids.len() {
                        assert(batch.ids[k] == id);
                    } else {
                        assert(rest[k - batch.ids.len()] == id);
                    }
                }
            },
            Request::Nothing => {
                if in_batch(state, id) {
                    let t = choose|t: int|
                        0 <= t < state.batches.len() && (#[trigger] state.batches[t]).ids.contains(
                            id,
                        );
                    assert(state.batches[t].ids.len() == 0);
                }
            },
        },
    }
}

/// No transaction is batched twice, and none that is batched is waiting.
pub open spec fn batched_once<Tx>(state: PassState<Tx>) -> bool {
    &&& forall|t: int, i: int, u: int, j: int|
        0 <= t < state.batches.len() && 0 <= u < state.batches.len() && 0 <= i
            < state.batches[t].ids.len() && 0 <= j < state.batches[u].ids.len() && (t != u || i
            != j) ==> #[trigger] state.batches[t].ids[i] != #[trigger] state.batches[u].ids[j]
    &&& forall|id: u64| #[trigger] in_batch(state, id) ==> !state.waiting(id)
}

proof fn lemma_step_batches_once<Tx>(limits: PassLimits, state: PassState<Tx>)
    requires
        state.inv(limits),
        batched_once(state),
        step(limits, state) is Some,
    ensures
        batched_once(step(limits, state)->0),
{
    let after = step(limits, state)->0;
    assert forall|id: u64| #[trigger] in_batch(after, id) implies !after.waiting(id) by {
        lemma_step_and_batches(limits, state, id);
        if after.waiting(id) {
            assert(state.waiting(id));
            assert(!in_batch(state, id));
            assert(after.batches != state.batches);
            let entry = state.queue[0];
            let transaction = state.states[entry.id].transaction->0;
            assert(state.waiting(entry.id));
            state.attempt_picks_least_loaded(limits, transaction);
            match state.attempt(limits, transaction) {
                Attempt::Thread(picked) => {
                    let t = choose|t: int|
                        0 <= t < after.batches.len() && (#[trigger] after.batches[t]).ids.contains(
                            id,
                        );
                    let k = after.batches[t].ids.index_of(id);
                    if id != entry.id {
                        assert(state.batches[t].ids[k] == id);
                        assert(state.batches[t].ids.contains(id));
                    }
                },
                _ => {},
            }
        }
    }
    if state.phase == Phase::Scanning && state.can_scan(limits) && state.waiting(
        state.queue[0].id,
    ) {
        let entry = state.queue[0];
        let transaction = state.states[entry.id].transaction->0;
        state.attempt_picks_least_loaded(limits, transaction);
        match state.attempt(limits, transaction) {
            Attempt::Thread(picked) => {
                assert(state.schedulable.contains(picked));
                let p = picked as int;
                assert forall|t: int, i: int, u: int, j: int|
                    0 <= t < after.batches.len() && 0 <= u < after.batches.len() && 0 <= i
                        < after.batches[t].ids.len() && 0 <= j < after.batches[u].ids.len() && (t
                        != u || i != j) implies #[trigger] after.batches[t].ids[i]
                    != #[trigger] after.batches[u].ids[j] by {
                    let new = state.batches[p].ids.len() as int;
                    if !(t == p && i == new) {
                        assert(after.batches[t].ids[i] == state.batches[t].ids[i]);
                        assert(state.batches[t].ids.contains(state.batches[t].ids[i]));
                        assert(in_batch(state, state.batches[t].ids[i]));
                    }
                    if !(u == p && j == new) {
                        assert(after.batches[u].ids[j] == state.batches[u].ids[j]);
                        assert(state.batches[u].ids.contains(state.batches[u].ids[j]));
                        assert(in_batch(state, state.batches[u].ids[j]));
                    }
                }
            },
            _ => {
                assert(after.batches == state.batches);
            },
        }
    } else {
        assert(after.batches == state.batches);
    }
}

proof fn lemma_send_batches_once<Tx>(limits: PassLimits, state: PassState<Tx>)
    requires
        state.inv(limits),
        batched_once(state),
        step(limits, state) is None,
        state.advance(limits).1 is Send,
    ensures
        batched_once(state.advance(limits).0),
{
    lemma_step(limits, state);
    let after = state.advance(limits).0;
    assert forall|id: u64| #[trigger] in_batch(after, id) implies !after.waiting(id) by {
        lemma_send_and_batches(limits, state, id);
    }
    assert forall|t: int, i: int, u: int, j: int|
        0 <= t < after.batches.len() && 0 <= u < after.batches.len() && 0 <= i
            < after.batches[t].ids.len() && 0 <= j < after.batches[u].ids.len() && (t != u || i
            != j) implies #[trigger] after.batches[t].ids[i] != #[trigger] after.batches[u].ids[j] by {
        assert(after.batches[t] == state.batches[t]);
        assert(after.batches[u] == state.batches[u]);
    }
}

/// No transaction is sent twice in a pass that begins with none batched twice.
pub proof fn no_transaction_is_sent_twice<Tx>(limits: PassLimits, state: PassState<Tx>)
    requires
        state.inv(limits),
        batched_once(state),
    ensures
        dispatched(limits, state).no_duplicates(),
    decreases state.queue.len(), state.phase_rank(), state.unvisited(limits),
{
    lemma_step(limits, state);
    lemma_step_keeps_inv(limits, state);
    sending_makes_progress(limits, state);
    pass_keeps_inv(limits, state);
    match step(limits, state) {
        Some(next) => {
            lemma_dispatched_step(limits, state);
            lemma_step_batches_once(limits, state);
            no_transaction_is_sent_twice(limits, next);
        },
        None => match state.advance(limits).1 {
            Request::Send { thread, batch } => {
                let after = state.advance(limits).0;
                let sent = thread as int;
                assert(batch == state.batches[sent]);
                lemma_send_batches_once(limits, state);
                no_transaction_is_sent_twice(limits, after);
                let rest = dispatched(limits, after);
                let all = batch.ids + rest;
                assert forall|i: int, j: int| 0 <= i < all.len() && 0 <= j < all.len() && i
                    != j implies all[i] != all[j] by {
                    let n = batch.ids.len() as int;
                    if i < n && j < n {
                        assert(state.batches[sent].ids[i] != state.batches[sent].ids[j]);
                    } else if i >= n && j >= n {
                        assert(rest[i - n] != rest[j - n]);
                    } else {
                        let early = if i < n { i } else { j };
                        let late = if i < n { j } else { i };
                        let id = rest[late - n];
                        assert(rest.contains(id));
                        taken_transactions_are_sent(limits, after, id);
                        assert(state.batches[sent].ids.contains(state.batches[sent].ids[early]));
                        assert(in_batch(state, state.batches[sent].ids[early]));
                        if in_batch(after, id) {
                            let t = choose|t: int|
                                0 <= t < after.batches.len() && (
                                #[trigger] after.batches[t]).ids.contains(id);
                            let k = after.batches[t].ids.index_of(id);
                            assert(after.batches[t] == state.batches[t]);
                            assert(state.batches[t].ids[k] != state.batches[sent].ids[early]);
                        } else {
                            assert(after.waiting(id));
                            assert(state.waiting(id));
                        }
                    }
                }
            },
            Request::Nothing => {},
        },
    }
}

/// The ids of the transactions that are sent to `thread` from the given state of
/// a pass to its end, in the order of sending.
pub open spec fn dispatched_to<Tx>(
    limits: PassLimits,
    state: PassState<Tx>,
    thread: usize,
) -> Seq<u64>
    decreases state.queue.len(), state.phase_rank(), state.unvisited(limits),
{
    proof {
        sending_makes_progress(limits, state);
    }
    match state.advance(limits).1 {
        Request::Send { thread: to, batch } => {
            let rest = dispatched_to(limits, state.advance(limits).0, thread);
            if to == thread {
                batch.ids + rest
            } else {
                rest
            }
        },
        Request::Nothing => Seq::empty(),
    }
}

/// `ids` are some of the ids in the queue, in the queue's order.
pub open spec fn in_queue_order(ids: Seq<u64>, queue: Seq<TransactionPriorityId>) -> bool
    decreases queue.len(),
{
    if ids.len() == 0 {
        true
    } else if queue.len() == 0 {
        false
    } else {
        ||| ids[0] == queue[0].id && in_queue_order(ids.drop_first(), queue.drop_first())
        ||| in_queue_order(ids, queue.drop_first())
    }
}

/// Each thread is sent its transactions in the order of the queue: first those in
/// its batch, and then further ones as they leave the queue.
pub proof fn threads_are_sent_work_in_queue_order<Tx>(
    limits: PassLimits,
    state: PassState<Tx>,
    thread: usize,
)
    requires
        state.inv(limits),
        thread < limits.num_threads,
    ensures
        ({
            let ids = dispatched_to(limits, state, thread);
            let batch = state.batches[thread as int].ids;
            &&& batch.len() <= ids.len()
            &&& ids.take(batch.len() as int) == batch
            &&& in_queue_order(ids.skip(batch.len() as int), state.queue)
        }),
    decreases state.queue.len(), state.phase_rank(), state.unvisited(limits),
{
    lemma_step(limits, state);
    lemma_step_keeps_inv(limits, state);
    sending_makes_progress(limits, state);
    pass_keeps_inv(limits, state);
    let ids = dispatched_to(limits, state, thread);
    let t = thread as int;
    let batch = state.batches[t].ids;
    let n = batch.len() as int;
    match step(limits, state) {
        Some(next) => {
            threads_are_sent_work_in_queue_order(limits, next, thread);
            assert(ids == dispatched_to(limits, next, thread));
            if state.phase == Phase::Scanning && state.can_scan(limits) {
                let entry = state.queue[0];
                if next.batches[t].ids != batch {
                    let transaction = state.states[entry.id].transaction->0;
                    state.attempt_picks_least_loaded(limits, transaction);
                    assert(next.batches[t].ids == batch.push(entry.id));
                    assert(ids.take(n + 1)[n] == entry.id);
                    assert(ids.skip(n).drop_first() =~= ids.skip(n + 1));
                    assert(ids.take(n) =~= ids.take(n + 1).take(n));
                    assert(batch.push(entry.id).take(n) =~= batch);
                }
            }
        },
        None => match state.advance(limits).1 {
            Request::Send { thread: to, batch: sent } => {
                let after = state.advance(limits).0;
                threads_are_sent_work_in_queue_order(limits, after, thread);
                let rest = dispatched_to(limits, after, thread);
                if to == thread {
                    assert(rest.skip(0) =~= rest);
                    assert(ids.take(n) =~= batch);
                    assert(ids.skip(n) =~= rest);
                } else {
                    assert(after.batches[t] == state.batches[t]);
                }
            },
            Request::Nothing => {
                assert(n == 0);
                assert(ids.take(0) =~= batch);
            },
        },
    }
}

/// As many transactions are sent to the end of a pass as are counted.
pub proof fn sent_transactions_are_counted<Tx>(limits: PassLimits, state: PassState<Tx>)
    requires
        state.inv(limits),
    ensures
        state.num_sent + dispatched(limits, state).len() == completed(limits, state).num_sent,
    decreases state.queue.len(), state.phase_rank(), state.unvisited(limits),
{
    lemma_step(limits, state);
    lemma_step_keeps_inv(limits, state);
    sending_makes_progress(limits, state);
    pass_keeps_inv(limits, state);
    match step(limits, state) {
        Some(next) => {
            lemma_completed_step(limits, state);
            lemma_dispatched_step(limits, state);
            sent_transactions_are_counted(limits, next);
        },
        None => match state.advance(limits).1 {
            Request::Send { thread, batch } => {
                sent_transactions_are_counted(limits, state.advance(limits).0);
            },
            Request::Nothing => {},
        },
    }
}

/// A transaction that is sent does not wait when the pass ends.
pub proof fn sent_transactions_no_longer_wait<Tx>(
    limits: PassLimits,
    state: PassState<Tx>,
    id: u64,
)
    requires
        state.inv(limits),
        batched_once(state),
        dispatched(limits, state).contains(id),
    ensures
        !completed(limits, state).waiting(id),
    decreases state.queue.len(), state.phase_rank(), state.unvisited(limits),
{
    lemma_step(limits, state);
    lemma_step_keeps_inv(limits, state);
    sending_makes_progress(limits, state);
    pass_keeps_inv(limits, state);
    match step(limits, state) {
        Some(next) => {
            lemma_completed_step(limits, state);
            lemma_dispatched_step(limits, state);
            lemma_step_batches_once(limits, state);
            sent_transactions_no_longer_wait(limits, next, id);
        },
        None => match state.advance(limits).1 {
            Request::Send { thread, batch } => {
                let after = state.advance(limits).0;
                let rest = dispatched(limits, after);
                if batch.ids.contains(id) {
                    lemma_send_and_batches(limits, state, id);
                    taken_transactions_stay_taken(limits, state);
                } else {
                    let k = dispatched(limits, state).index_of(id);
                    assert((batch.ids + rest)[k] == id);
                    if k < batch.ids.len() {
                        assert(batch.ids[k] == id);
                    }
                    assert(rest[k - batch.ids.len()] == id);
                    lemma_send_batches_once(limits, state);
                    sent_transactions_no_longer_wait(limits, after, id);
                }
            },
            Request::Nothing => {},
        },
    }
}

/// The queue is in order, and each entry that is queued or set aside waits under
/// an id of its own.
pub open spec fn tidy<Tx>(state: PassState<Tx>) -> bool {
    &&& super::container::in_pop_order(state.queue)
    &&& forall|i: int|
        0 <= i < state.queue.len() ==> state.waiting((#[trigger] state.queue[i]).id)
    &&& forall|i: int|
        0 <= i < state.unschedulables.len() ==> state.waiting(
            (#[trigger] state.unschedulables[i]).id,
        )
    &&& forall|i: int, j: int|
        0 <= i < j < state.queue.len() ==> (#[trigger] state.queue[i]).id != (
        #[trigger] state.queue[j]).id
    &&& forall|i: int, j: int|
        0 <= i < j < state.unschedulables.len() ==> (#[trigger] state.unschedulables[i]).id != (
        #[trigger] state.unschedulables[j]).id
    &&& forall|i: int, j: int|
        0 <= i < state.queue.len() && 0 <= j < state.unschedulables.len() ==> (
        #[trigger] state.queue[i]).id != (#[trigger] state.unschedulables[j]).id
}

/// Each entry that was queued or set aside in `a` is so in `b` just if it still
/// waits; each that is not has been scheduled; and the same ids are buffered.
pub open spec fn accounts_for<Tx>(a: PassState<Tx>, b: PassState<Tx>) -> bool {
    &&& forall|entry: TransactionPriorityId| #[trigger]
        queued(b, entry) <==> queued(a, entry) && b.waiting(entry.id)
    &&& b.queue.len() + b.unschedulables.len() + b.num_scheduled == a.queue.len()
        + a.unschedulables.len() + a.num_scheduled
    &&& b.states.dom() == a.states.dom()
}

/// A pass that starts from a queue in which no id occurred twice, with nothing
/// set aside, starts tidy.
pub proof fn fresh_pass_is_tidy<Tx>(state: PassState<Tx>, queue: Seq<TransactionPriorityId>)
    requires
        super::ooze_scheduler::ids_of(queue).no_duplicates(),
        super::ooze_scheduler::ids_of(state.queue).to_multiset()
            == super::ooze_scheduler::ids_of(
            super::ooze_scheduler::recirculated(queue, state.states),
        ).to_multiset(),
        super::container::in_pop_order(state.queue),
        state.unschedulables.len() == 0,
    ensures
        tidy(state),
{
    let kept = super::ooze_scheduler::recirculated(queue, state.states);
    let ids = super::ooze_scheduler::ids_of(state.queue);
    lemma_filter_keeps_distinct_ids(
        queue,
        |entry: TransactionPriorityId| super::ooze_scheduler::waits(state.states, entry.id),
    );
    super::ooze_scheduler::ids_of(kept).lemma_multiset_has_no_duplicates();
    ids.lemma_multiset_has_no_duplicates_conv();
    assert forall|i: int| 0 <= i < state.queue.len() implies state.waiting(
        (#[trigger] state.queue[i]).id,
    ) by {
        super::ooze_scheduler::pass_keeps_to_the_queue(queue, state.states, state.queue, i);
    }
    assert forall|i: int, j: int| 0 <= i < j < state.queue.len() implies (
    #[trigger] state.queue[i]).id != (#[trigger] state.queue[j]).id by {
        assert(ids[i] == state.queue[i].id);
        assert(ids[j] == state.queue[j].id);
    }
}

proof fn lemma_filter_keeps_distinct_ids(
    queue: Seq<TransactionPriorityId>,
    wanted: spec_fn(TransactionPriorityId) -> bool,
)
    requires
        super::ooze_scheduler::ids_of(queue).no_duplicates(),
    ensures
        super::ooze_scheduler::ids_of(queue.filter(wanted)).no_duplicates(),
    decreases queue.len(),
{
    reveal(Seq::filter);
    if queue.len() > 0 {
        let rest = queue.drop_last();
        let last = queue.last();
        let ids = super::ooze_scheduler::ids_of(queue);
        assert(super::ooze_scheduler::ids_of(rest) =~= ids.drop_last());
        lemma_filter_keeps_distinct_ids(rest, wanted);
        let kept = rest.filter(wanted);
        let kept_ids = super::ooze_scheduler::ids_of(kept);
        assert forall|k: int| 0 <= k < kept.len() implies #[trigger] kept[k].id != last.id by {
            assert(kept.contains(kept[k]));
            rest.lemma_filter_contains_rev(wanted, kept[k]);
            let i = rest.index_of(kept[k]);
            assert(ids[i] == kept[k].id);
            assert(ids[queue.len() - 1] == last.id);
        }
        if wanted(last) {
            assert(super::ooze_scheduler::ids_of(queue.filter(wanted)) =~= kept_ids.push(last.id));
            assert forall|k: int| 0 <= k < kept_ids.len() implies kept_ids[k] != last.id by {
                assert(kept_ids[k] == kept[k].id);
            }
        }
    }
}

proof fn lemma_scanning_accounts<Tx>(limits: PassLimits, a: PassState<Tx>, b: PassState<Tx>)
    requires
        b.inv(limits),
        b.can_scan(limits),
        tidy(b),
        accounts_for(a, b),
    ensures
        tidy(b.scan_one(limits)),
        accounts_for(a, b.scan_one(limits)),
{
    let after = b.scan_one(limits);
    let head = b.queue[0];
    assert(b.waiting(head.id));
    let attempt = b.attempt(limits, b.states[head.id].transaction->0);
    assert(after.queue == b.queue.drop_first());
    assert(attempt is Thread ==> after.unschedulables == b.unschedulables);
    assert(!(attempt is Thread) ==> after.unschedulables == b.unschedulables.push(head));
    assert forall|id: u64| #[trigger] after.waiting(id) <==> b.waiting(id) && !(attempt is Thread
        && id == head.id) by {
    }
    assert(super::container::in_pop_order(after.queue));
    assert forall|i: int| 0 <= i < after.queue.len() implies after.waiting(
        (#[trigger] after.queue[i]).id,
    ) by {
        assert(after.queue[i] == b.queue[i + 1]);
    }
    assert forall|i: int| 0 <= i < after.unschedulables.len() implies after.waiting(
        (#[trigger] after.unschedulables[i]).id,
    ) by {
        if i < b.unschedulables.len() {
            assert(after.unschedulables[i] == b.unschedulables[i]);
        }
    }
    assert forall|i: int, j: int| 0 <= i < j < after.queue.len() implies (
    #[trigger] after.queue[i]).id != (#[trigger] after.queue[j]).id by {
        assert(after.queue[i] == b.queue[i + 1] && after.queue[j] == b.queue[j + 1]);
    }
    assert forall|i: int, j: int| 0 <= i < after.queue.len() && 0 <= j
        < after.unschedulables.len() implies (#[trigger] after.queue[i]).id != (
    #[trigger] after.unschedulables[j]).id by {
        assert(after.queue[i] == b.queue[i + 1]);
        if j < b.unschedulables.len() {
            assert(after.unschedulables[j] == b.unschedulables[j]);
        }
    }
    assert forall|i: int, j: int| 0 <= i < j < after.unschedulables.len() implies (
    #[trigger] after.unschedulables[i]).id != (#[trigger] after.unschedulables[j]).id by {
        assert(after.unschedulables[i] == b.unschedulables[i]);
        if j < b.unschedulables.len() {
            assert(after.unschedulables[j] == b.unschedulables[j]);
        }
    }
    assert forall|entry: TransactionPriorityId| #[trigger] queued(after, entry) <==> queued(
        a,
        entry,
    ) && after.waiting(entry.id) by {
        assert(queued(b, entry) <==> queued(a, entry) && b.waiting(entry.id));
        if queued(after, entry) {
            if after.queue.contains(entry) {
                let i = after.queue.index_of(entry);
                assert(b.queue[i + 1] == entry);
                assert(queued(b, entry));
            } else {
                let i = after.unschedulables.index_of(entry);
                if i < b.unschedulables.len() {
                    assert(b.unschedulables[i] == entry);
                } else {
                    assert(b.queue[0] == entry);
                }
                assert(queued(b, entry));
            }
        }
        if queued(b, entry) && after.waiting(entry.id) {
            if b.unschedulables.contains(entry) {
                let i = b.unschedulables.index_of(entry);
                assert(after.unschedulables[i] == entry);
            } else {
                let i = b.queue.index_of(entry);
                if i > 0 {
                    assert(after.queue[i - 1] == entry);
                } else {
                    assert(after.unschedulables[b.unschedulables.len() as int] == entry);
                }
            }
        }
    }
    assert(after.states.dom() =~= b.states.dom());
}

proof fn lemma_finishing_accounts<Tx>(a: PassState<Tx>, b: PassState<Tx>)
    requires
        tidy(b),
        accounts_for(a, b),
    ensures
        tidy(b.finished()),
        accounts_for(a, b.finished()),
{
    let after = b.finished();
    super::container::enqueued_holds(b.queue, b.unschedulables);
    let merged = after.queue;
    let all = b.queue.to_set().union(b.unschedulables.to_set());
    assert(merged.to_set() == all);
    assert(merged.no_duplicates());
    merged.unique_seq_to_set();
    assert(b.queue.no_duplicates()) by {
        assert forall|i: int, j: int| 0 <= i < b.queue.len() && 0 <= j < b.queue.len() && i
            != j implies b.queue[i] != b.queue[j] by {
            if i < j {
                assert(b.queue[i].id != b.queue[j].id);
            } else {
                assert(b.queue[j].id != b.queue[i].id);
            }
        }
    }
    b.queue.unique_seq_to_set();
    assert(b.unschedulables.no_duplicates()) by {
        assert forall|i: int, j: int| 0 <= i < b.unschedulables.len() && 0 <= j
            < b.unschedulables.len() && i != j implies b.unschedulables[i]
            != b.unschedulables[j] by {
            if i < j {
                assert(b.unschedulables[i].id != b.unschedulables[j].id);
            } else {
                assert(b.unschedulables[j].id != b.unschedulables[i].id);
            }
        }
    }
    b.unschedulables.unique_seq_to_set();
    assert(b.queue.to_set().disjoint(b.unschedulables.to_set())) by {
        assert forall|entry: TransactionPriorityId| b.queue.to_set().contains(
            entry,
        ) implies !b.unschedulables.to_set().contains(entry) by {
            if b.unschedulables.to_set().contains(entry) {
                let i = b.queue.index_of(entry);
                let j = b.unschedulables.index_of(entry);
                assert(b.queue[i].id != b.unschedulables[j].id);
            }
        }
    }
    vstd::set_lib::lemma_set_disjoint_lens(b.queue.to_set(), b.unschedulables.to_set());
    assert forall|entry: TransactionPriorityId| #[trigger] queued(after, entry) <==> queued(
        b,
        entry,
    ) by {
        assert(merged.contains(entry) <==> merged.to_set().contains(entry));
        assert(all.contains(entry) <==> queued(b, entry));
        assert(!after.unschedulables.contains(entry));
    }
    assert forall|i: int| 0 <= i < merged.len() implies after.waiting((#[trigger] merged[i]).id) by {
        assert(queued(after, merged[i]));
        lemma_tidy_waits(b, merged[i]);
    }
    assert forall|i: int, j: int| 0 <= i < j < merged.len() implies (#[trigger] merged[i]).id != (
    #[trigger] merged[j]).id by {
        assert(queued(after, merged[i]) && queued(after, merged[j]));
        assert(merged[i] != merged[j]);
        if merged[i].id == merged[j].id {
            lemma_tidy_ids_are_distinct(b, merged[i], merged[j]);
        }
    }
    assert forall|entry: TransactionPriorityId| #[trigger] queued(after, entry) <==> queued(
        a,
        entry,
    ) && after.waiting(entry.id) by {
        assert(queued(b, entry) <==> queued(a, entry) && b.waiting(entry.id));
    }
}

proof fn lemma_tidy_waits<Tx>(state: PassState<Tx>, entry: TransactionPriorityId)
    requires
        tidy(state),
        queued(state, entry),
    ensures
        state.waiting(entry.id),
{
    if state.queue.contains(entry) {
        assert(state.queue[state.queue.index_of(entry)] == entry);
    } else {
        assert(state.unschedulables[state.unschedulables.index_of(entry)] == entry);
    }
}

proof fn lemma_tidy_ids_are_distinct<Tx>(
    state: PassState<Tx>,
    a: TransactionPriorityId,
    b: TransactionPriorityId,
)
    requires
        tidy(state),
        queued(state, a),
        queued(state, b),
        a.id == b.id,
    ensures
        a == b,
{
    if state.queue.contains(a) {
        let i = state.queue.index_of(a);
        assert(state.queue[i] == a);
        if state.queue.contains(b) {
            assert(state.queue[state.queue.index_of(b)] == b);
        } else {
            assert(state.unschedulables[state.unschedulables.index_of(b)] == b);
        }
    } else {
        let i = state.unschedulables.index_of(a);
        assert(state.unschedulables[i] == a);
        if state.queue.contains(b) {
            assert(state.queue[state.queue.index_of(b)] == b);
        } else {
            assert(state.unschedulables[state.unschedulables.index_of(b)] == b);
        }
    }
}

/// A pass accounts for every entry. At its end the queue holds just the entries
/// whose transactions have not been sent, with the priorities that they had; an
/// entry has left the queue for every transaction that was scheduled; and the
/// same transactions are buffered.
pub proof fn pass_accounts_for_every_entry<Tx>(limits: PassLimits, state: PassState<Tx>)
    requires
        state.inv(limits),
        tidy(state),
        batched_once(state),
    ensures
        ({
            let end = completed(limits, state);
            &&& forall|entry: TransactionPriorityId| #[trigger]
                end.queue.contains(entry) <==> queued(state, entry) && !dispatched(
                    limits,
                    state,
                ).contains(entry.id)
            &&& tidy(end)
            &&& end.queue.len() + end.num_scheduled == state.queue.len()
                + state.unschedulables.len() + state.num_scheduled
            &&& end.states.dom() == state.states.dom()
        }),
{
    let kept = |a: PassState<Tx>, b: PassState<Tx>| tidy(a) ==> tidy(b) && accounts_for(a, b);
    assert(kept_by_steps(limits, kept)) by {
        assert forall|a: PassState<Tx>| #[trigger] kept(a, a) by {
            if tidy(a) {
                assert forall|entry: TransactionPriorityId| #[trigger] queued(
                    a,
                    entry,
                ) implies a.waiting(entry.id) by {
                    lemma_tidy_waits(a, entry);
                }
            }
        }
        assert forall|a: PassState<Tx>, b: PassState<Tx>|
            #[trigger] kept(a, b) && b.inv(limits) && b.phase == Phase::Scanning && b.can_scan(
                limits,
            ) implies kept(a, b.scan_one(limits)) by {
            if tidy(a) {
                lemma_scanning_accounts(limits, a, b);
            }
        }
        assert forall|a: PassState<Tx>, b: PassState<Tx>, phase: Phase| kept(a, b) implies #[trigger] kept(
            a,
            PassState { phase, ..b },
        ) by {
            lemma_accounts_of_same_entries(a, b, PassState { phase, ..b });
        }
        assert forall|a: PassState<Tx>, b: PassState<Tx>, next: usize, last: bool|
            kept(a, b) && next < limits.num_threads && b.inv(limits) implies #[trigger] kept(
            a,
            b.sent(next, last),
        ) by {
            lemma_accounts_of_same_entries(a, b, b.sent(next, last));
        }
        assert forall|a: PassState<Tx>, b: PassState<Tx>|
            #[trigger] kept(a, b) && b.inv(limits) implies kept(a, b.finished()) by {
            if tidy(a) {
                lemma_finishing_accounts(a, b);
            }
        }
    }
    lemma_kept_to_the_end(limits, kept, state, state);
    every_scheduled_transaction_is_sent(limits, state);
    let end = completed(limits, state);
    assert forall|entry: TransactionPriorityId| #[trigger] end.queue.contains(entry) <==> queued(
        state,
        entry,
    ) && !dispatched(limits, state).contains(entry.id) by {
        assert(queued(end, entry) <==> queued(state, entry) && end.waiting(entry.id));
        assert(!end.unschedulables.contains(entry));
        if queued(state, entry) {
            lemma_tidy_waits(state, entry);
            taken_transactions_are_sent(limits, state, entry.id);
            if dispatched(limits, state).contains(entry.id) {
                sent_transactions_no_longer_wait(limits, state, entry.id);
            }
        }
    }
}

proof fn lemma_accounts_of_same_entries<Tx>(
    a: PassState<Tx>,
    b: PassState<Tx>,
    c: PassState<Tx>,
)
    requires
        c.queue == b.queue,
        c.unschedulables == b.unschedulables,
        c.states == b.states,
        c.num_scheduled == b.num_scheduled,
    ensures
        tidy(b) ==> tidy(c),
        accounts_for(a, b) ==> accounts_for(a, c),
{
    assert(forall|id: u64| c.waiting(id) == #[trigger] b.waiting(id));
    assert(forall|entry: TransactionPriorityId| queued(c, entry) == #[trigger] queued(b, entry));
    if tidy(b) {
        assert forall|i: int| 0 <= i < c.queue.len() implies c.waiting((#[trigger] c.queue[i]).id) by {
            assert(b.waiting(b.queue[i].id));
        }
        assert forall|i: int| 0 <= i < c.unschedulables.len() implies c.waiting(
            (#[trigger] c.unschedulables[i]).id,
        ) by {
            assert(b.waiting(b.unschedulables[i].id));
        }
    }
    if accounts_for(a, b) {
        assert forall|entry: TransactionPriorityId| #[trigger] queued(c, entry) <==> queued(
            a,
            entry,
        ) && c.waiting(entry.id) by {
            assert(queued(b, entry) <==> queued(a, entry) && b.waiting(entry.id));
        }
    }
}

/// The thread holds every account that the transaction names, for writing or for
/// reading as the transaction needs it.
pub open spec fn holds_accounts<Tx>(
    locks: LockTable,
    thread: usize,
    transaction: RuntimeTransaction<Tx>,
) -> bool {
    &&& forall|account: Seq<u8>| #[trigger]
        transaction.accounts(true).contains(account) ==> locks.write.dom().contains(account)
            && locks.write[account] == thread
    &&& forall|account: Seq<u8>| #[trigger]
        transaction.accounts(false).contains(account) ==> locks.read.dom().contains(account)
            && locks.read[account].contains(thread)
}

/// Some account that one of the transactions may write is named by the other too.
pub open spec fn conflicting<Tx>(a: RuntimeTransaction<Tx>, b: RuntimeTransaction<Tx>) -> bool {
    exists|account: Seq<u8>|
        {
            ||| #[trigger] a.accounts(true).contains(account) && b.accounts(true).contains(account)
            ||| a.accounts(true).contains(account) && b.accounts(false).contains(account)
            ||| a.accounts(false).contains(account) && b.accounts(true).contains(account)
        }
}

/// Conflicting transactions whose accounts are held are held by one thread.
pub proof fn conflicting_holders_are_one_thread<Tx>(
    locks: LockTable,
    thread_a: usize,
    a: RuntimeTransaction<Tx>,
    thread_b: usize,
    b: RuntimeTransaction<Tx>,
)
    requires
        locks.exclusive(),
        holds_accounts(locks, thread_a, a),
        holds_accounts(locks, thread_b, b),
        conflicting(a, b),
    ensures
        thread_a == thread_b,
{
    let account = choose|account: Seq<u8>|
        {
            ||| #[trigger] a.accounts(true).contains(account) && b.accounts(true).contains(account)
            ||| a.accounts(true).contains(account) && b.accounts(false).contains(account)
            ||| a.accounts(false).contains(account) && b.accounts(true).contains(account)
        };
    assert(locks.write.dom().contains(account));
}

proof fn lemma_locking_keeps_holders<Tx>(
    limits: PassLimits,
    state: PassState<Tx>,
    locked: RuntimeTransaction<Tx>,
    by: usize,
    thread: usize,
    transaction: RuntimeTransaction<Tx>,
)
    requires
        state.available(limits, locked).contains(by),
        holds_accounts(state.locks, thread, transaction),
    ensures
        holds_accounts(
            state.locks.lock(locked.key_list(true), locked.key_list(false), by),
            thread,
            transaction,
        ),
{
    let after = state.locks.lock(locked.key_list(true), locked.key_list(false), by);
    assert forall|account: Seq<u8>| #[trigger]
        transaction.accounts(true).contains(account) implies after.write.dom().contains(account)
        && after.write[account] == thread by {
        if locked.accounts(true).contains(account) {
            assert(state.locks.may_write(account, by));
        }
    }
}

/// In every batch, the batch's thread holds the accounts of the transactions.
pub open spec fn batches_hold_accounts<Tx>(state: PassState<Tx>) -> bool {
    forall|thread: usize, transaction: RuntimeTransaction<Tx>|
        thread < state.batches.len() && #[trigger] state.batches[thread as int].transactions.contains(
            transaction,
        ) ==> holds_accounts(state.locks, thread, transaction)
}

/// The transaction is sent to the thread between the given state of a pass and
/// its end.
pub open spec fn is_sent_to<Tx>(
    limits: PassLimits,
    state: PassState<Tx>,
    thread: usize,
    transaction: RuntimeTransaction<Tx>,
) -> bool
    decreases state.queue.len(), state.phase_rank(), state.unvisited(limits),
{
    proof {
        sending_makes_progress(limits, state);
    }
    match state.advance(limits).1 {
        Request::Send { thread: to, batch } => {
            ||| to == thread && batch.transactions.contains(transaction)
            ||| is_sent_to(limits, state.advance(limits).0, thread, transaction)
        },
        Request::Nothing => false,
    }
}

/// A pass releases no locks: a thread that holds a transaction's accounts holds
/// them at every later moment of the pass.
pub proof fn accounts_stay_held<Tx>(
    limits: PassLimits,
    state: PassState<Tx>,
    thread: usize,
    transaction: RuntimeTransaction<Tx>,
)
    requires
        state.inv(limits),
        holds_accounts(state.locks, thread, transaction),
    ensures
        holds_accounts(state.advance(limits).0.locks, thread, transaction),
        holds_accounts(completed(limits, state).locks, thread, transaction),
{
    let kept = |a: PassState<Tx>, b: PassState<Tx>|
        holds_accounts(a.locks, thread, transaction) ==> holds_accounts(
            b.locks,
            thread,
            transaction,
        );
    assert(kept_by_steps(limits, kept)) by {
        assert forall|a: PassState<Tx>, b: PassState<Tx>|
            #[trigger] kept(a, b) && b.inv(limits) && b.phase == Phase::Scanning && b.can_scan(
                limits,
            ) implies kept(a, b.scan_one(limits)) by {
            let head = b.queue[0];
            if holds_accounts(b.locks, thread, transaction) && b.waiting(head.id) {
                let locked = b.states[head.id].transaction->0;
                b.attempt_picks_least_loaded(limits, locked);
                match b.attempt(limits, locked) {
                    Attempt::Thread(by) => {
                        lemma_locking_keeps_holders(limits, b, locked, by, thread, transaction);
                    },
                    _ => {},
                }
            }
        }
    }
    lemma_kept_to_the_end(limits, kept, state, state);
}

proof fn lemma_step_keeps_batches_held<Tx>(limits: PassLimits, state: PassState<Tx>)
    requires
        state.inv(limits),
        batches_hold_accounts(state),
        step(limits, state) is Some,
    ensures
        batches_hold_accounts(step(limits, state)->0),
{
    let after = step(limits, state)->0;
    assert forall|thread: usize, transaction: RuntimeTransaction<Tx>|
        thread < after.batches.len() && #[trigger] after.batches[thread as int].transactions.contains(
            transaction,
        ) implies holds_accounts(after.locks, thread, transaction) by {
        let t = thread as int;
        if state.phase == Phase::Scanning && state.can_scan(limits) && state.waiting(
            state.queue[0].id,
        ) {
            let locked = state.states[state.queue[0].id].transaction->0;
            state.attempt_picks_least_loaded(limits, locked);
            match state.attempt(limits, locked) {
                Attempt::Thread(by) => {
                    assert(state.schedulable.contains(by));
                    let k = after.batches[t].transactions.index_of(transaction);
                    if t == by && k == state.batches[t].transactions.len() {
                        assert(transaction == locked);
                    } else {
                        assert(state.batches[t].transactions[k] == transaction);
                        assert(state.batches[t].transactions.contains(transaction));
                        lemma_locking_keeps_holders(
                            limits,
                            state,
                            locked,
                            by,
                            thread,
                            transaction,
                        );
                    }
                },
                _ => {
                    assert(state.batches[t].transactions.contains(transaction));
                },
            }
        } else {
            assert(state.batches[t].transactions.contains(transaction));
        }
    }
}

/// A transaction that is sent to a thread has its accounts held by that thread
/// when the pass ends.
pub proof fn sent_transactions_hold_their_accounts<Tx>(
    limits: PassLimits,
    state: PassState<Tx>,
    thread: usize,
    transaction: RuntimeTransaction<Tx>,
)
    requires
        state.inv(limits),
        batches_hold_accounts(state),
        is_sent_to(limits, state, thread, transaction),
    ensures
        holds_accounts(completed(limits, state).locks, thread, transaction),
    decreases state.queue.len(), state.phase_rank(), state.unvisited(limits),
{
    lemma_step(limits, state);
    lemma_step_keeps_inv(limits, state);
    sending_makes_progress(limits, state);
    pass_keeps_inv(limits, state);
    match step(limits, state) {
        Some(next) => {
            lemma_completed_step(limits, state);
            lemma_step_keeps_batches_held(limits, state);
            sent_transactions_hold_their_accounts(limits, next, thread, transaction);
        },
        None => match state.advance(limits).1 {
            Request::Send { thread: to, batch } => {
                let after = state.advance(limits).0;
                if to == thread && batch.transactions.contains(transaction) {
                    assert(state.batches[to as int].transactions.contains(transaction));
                    accounts_stay_held(limits, state, thread, transaction);
                } else {
                    assert forall|t: usize, other: RuntimeTransaction<Tx>|
                        t < after.batches.len() && #[trigger] after.batches[t as int].transactions.contains(
                            other,
                        ) implies holds_accounts(after.locks, t, other) by {
                        assert(t != to);
                        assert(state.batches[t as int].transactions.contains(other));
                    }
                    sent_transactions_hold_their_accounts(limits, after, thread, transaction);
                }
            },
            Request::Nothing => {},
        },
    }
}

/// The transaction was in flight on the thread when the pass was in the given
/// state, or is sent to it by the end.
pub open spec fn outstanding<Tx>(
    limits: PassLimits,
    state: PassState<Tx>,
    in_flight: Set<(usize, RuntimeTransaction<Tx>)>,
    thread: usize,
    transaction: RuntimeTransaction<Tx>,
) -> bool {
    in_flight.contains((thread, transaction)) || is_sent_to(limits, state, thread, transaction)
}

/// Where all batches are empty, no transaction is batched twice, and none is
/// batched whose accounts are not held.
pub proof fn empty_batches_are_in_order<Tx>(state: PassState<Tx>)
    requires
        forall|thread: int|
            0 <= thread < state.batches.len() ==> #[trigger] state.batches[thread]
                == BatchView::<Tx>::empty(),
    ensures
        batched_once(state),
        batches_hold_accounts(state),
{
    assert forall|id: u64| #[trigger] in_batch(state, id) implies !state.waiting(id) by {
        let thread = choose|thread: int|
            0 <= thread < state.batches.len() && (#[trigger] state.batches[thread]).ids.contains(
                id,
            );
        assert(state.batches[thread] == BatchView::<Tx>::empty());
    }
    assert forall|thread: usize, transaction: RuntimeTransaction<Tx>|
        thread < state.batches.len() && #[trigger] state.batches[thread as int].transactions.contains(
            transaction,
        ) implies holds_accounts(state.locks, thread, transaction) by {
        assert(state.batches[thread as int] == BatchView::<Tx>::empty());
    }
}

proof fn lemma_started_pass<Tx, S: StateContainer<Tx>>(
    scheduler: OozeScheduler<Tx>,
    container: S,
    pass: SchedulingPass,
)
    requires
        scheduler.common().batches_empty(),
    ensures
        batched_once(super::ooze_scheduler::pass_state(scheduler, container, pass)),
        batches_hold_accounts(super::ooze_scheduler::pass_state(scheduler, container, pass)),
{
    let state = super::ooze_scheduler::pass_state(scheduler, container, pass);
    assert forall|thread: int| 0 <= thread < state.batches.len() implies #[trigger] state.batches[thread]
        == BatchView::<Tx>::empty() by {
        assert(scheduler.common().batches@[thread]@ == BatchView::<Tx>::empty());
    }
    empty_batches_are_in_order(state);
}

/// A pass that `schedule` has started over a queue in which no id occurred twice,
/// with nothing set aside by an earlier pass, accounts for every entry: when all
/// its work has been sent, the queue holds just the entries of the reshuffled
/// queue that were not sent, and these with the scheduled ones make up the
/// starting size. As many transactions are buffered as at the start.
pub proof fn started_pass_accounts_for_every_entry<Tx, S: StateContainer<Tx>>(
    scheduler: OozeScheduler<Tx>,
    container: S,
    pass: SchedulingPass,
    queue: Seq<TransactionPriorityId>,
)
    requires
        super::ooze_scheduler::resumable(scheduler, container, pass),
        scheduler.common().batches_empty(),
        scheduler.unschedulables().len() == 0,
        pass.num_scheduled == 0,
        pass.starting_queue_size == container.queue().len(),
        pass.starting_buffer_size == container.states().len(),
        super::ooze_scheduler::ids_of(queue).no_duplicates(),
        super::ooze_scheduler::ids_of(container.queue()).to_multiset()
            == super::ooze_scheduler::ids_of(
            super::ooze_scheduler::recirculated(queue, container.states()),
        ).to_multiset(),
    ensures
        ({
            let limits = super::ooze_scheduler::pass_limits(scheduler, pass);
            let state = super::ooze_scheduler::pass_state(scheduler, container, pass);
            let end = completed(limits, state);
            let summary = super::ooze_scheduler::summary_of(pass, end);
            &&& forall|entry: TransactionPriorityId| #[trigger]
                end.queue.contains(entry) <==> container.queue().contains(entry) && !dispatched(
                    limits,
                    state,
                ).contains(entry.id)
            &&& end.queue.len() + summary.num_scheduled == summary.starting_queue_size
            &&& end.states.dom() == container.states().dom()
            &&& end.states.len() == summary.starting_buffer_size
        }),
{
    let limits = super::ooze_scheduler::pass_limits(scheduler, pass);
    let state = super::ooze_scheduler::pass_state(scheduler, container, pass);
    fresh_pass_is_tidy(state, queue);
    lemma_started_pass(scheduler, container, pass);
    pass_accounts_for_every_entry(limits, state);
    let end = completed(limits, state);
    assert forall|entry: TransactionPriorityId| #[trigger] end.queue.contains(
        entry,
    ) <==> container.queue().contains(entry) && !dispatched(limits, state).contains(entry.id) by {
        assert(queued(state, entry) <==> container.queue().contains(entry));
    }
}

/// In a pass that `schedule` has started, conflicting transactions never come to
/// be outstanding on different threads: where the accounts of what is in flight
/// are held by its threads, any two conflicting transactions that were in flight
/// or have been sent when the pass ends are on the same thread.
pub proof fn started_pass_keeps_conflicts_on_one_thread<Tx, S: StateContainer<Tx>>(
    scheduler: OozeScheduler<Tx>,
    container: S,
    pass: SchedulingPass,
    in_flight: Set<(usize, RuntimeTransaction<Tx>)>,
)
    requires
        super::ooze_scheduler::resumable(scheduler, container, pass),
        scheduler.common().batches_empty(),
        super::locks::lock_table(scheduler.common().account_locks).exclusive(),
        forall|thread: usize, transaction: RuntimeTransaction<Tx>| #[trigger]
            in_flight.contains((thread, transaction)) ==> holds_accounts(
                super::locks::lock_table(scheduler.common().account_locks),
                thread,
                transaction,
            ),
    ensures
        ({
            let limits = super::ooze_scheduler::pass_limits(scheduler, pass);
            let state = super::ooze_scheduler::pass_state(scheduler, container, pass);
            let end = completed(limits, state);
            &&& end.locks.exclusive()
            &&& forall|thread: usize, transaction: RuntimeTransaction<Tx>| #[trigger]
                outstanding(limits, state, in_flight, thread, transaction) ==> holds_accounts(
                    end.locks,
                    thread,
                    transaction,
                )
            &&& forall|
                thread_a: usize,
                a: RuntimeTransaction<Tx>,
                thread_b: usize,
                b: RuntimeTransaction<Tx>,
            |
                #[trigger] outstanding(limits, state, in_flight, thread_a, a)
                    && #[trigger] outstanding(limits, state, in_flight, thread_b, b)
                    && conflicting(a, b) ==> thread_a == thread_b
        }),
{
    let limits = super::ooze_scheduler::pass_limits(scheduler, pass);
    let state = super::ooze_scheduler::pass_state(scheduler, container, pass);
    let end = completed(limits, state);
    lemma_started_pass(scheduler, container, pass);
    write_locks_stay_exclusive(limits, state);
    assert forall|thread: usize, transaction: RuntimeTransaction<Tx>| #[trigger] outstanding(
        limits,
        state,
        in_flight,
        thread,
        transaction,
    ) implies holds_accounts(end.locks, thread, transaction) by {
        if in_flight.contains((thread, transaction)) {
            accounts_stay_held(limits, state, thread, transaction);
        } else {
            sent_transactions_hold_their_accounts(limits, state, thread, transaction);
        }
    }
    assert forall|
        thread_a: usize,
        a: RuntimeTransaction<Tx>,
        thread_b: usize,
        b: RuntimeTransaction<Tx>,
    |
        #[trigger] outstanding(limits, state, in_flight, thread_a, a) && #[trigger] outstanding(
            limits,
            state,
            in_flight,
            thread_b,
            b,
        ) && conflicting(a, b) implies thread_a == thread_b by {
        conflicting_holders_are_one_thread(end.locks, thread_a, a, thread_b, b);
    }
}

/// The thread may run the transaction, going by the flags of its accounts: no
/// account is held for writing by another thread, and none that is flagged
/// writable is held for reading by another thread.
pub open spec fn may_run_on<Tx>(
    locks: LockTable,
    num_threads: nat,
    transaction: RuntimeTransaction<Tx>,
    thread: usize,
) -> bool {
    &&& thread < num_threads
    &&& forall|i: int|
        0 <= i < transaction.account_keys@.len() ==> {
            let account = (#[trigger] transaction.account_keys@[i])@;
            if locks.write.dom().contains(account) {
                locks.write[account] == thread
            } else {
                i < transaction.writable@.len() && transaction.writable@[i]
                    && locks.read.dom().contains(account) ==> locks.read[account] == set![thread]
            }
        }
}

/// The thread holds the transaction's accounts as their flags ask: those flagged
/// writable for writing, and all others for reading.
pub open spec fn runs_on<Tx>(
    locks: LockTable,
    transaction: RuntimeTransaction<Tx>,
    thread: usize,
) -> bool {
    forall|i: int|
        0 <= i < transaction.account_keys@.len() ==> {
            let account = (#[trigger] transaction.account_keys@[i])@;
            if i < transaction.writable@.len() && transaction.writable@[i] {
                locks.write.dom().contains(account) && locks.write[account] == thread
            } else {
                locks.read.dom().contains(account) && locks.read[account].contains(thread)
            }
        }
}

/// The threads that may lock a transaction's accounts are those that may run it,
/// going by the flags of its accounts.
pub proof fn lemma_may_run_on<Tx>(
    locks: LockTable,
    num_threads: nat,
    transaction: RuntimeTransaction<Tx>,
)
    ensures
        forall|thread: usize| #[trigger]
            may_run_on(locks, num_threads, transaction, thread) <==> locks.available(
                num_threads,
                transaction.accounts(true),
                transaction.accounts(false),
            ).contains(thread),
        locks.available(num_threads, transaction.accounts(true), transaction.accounts(false))
            == Set::<usize>::empty() <==> forall|thread: usize|
            !#[trigger] may_run_on(locks, num_threads, transaction, thread),
{
    let available = locks.available(
        num_threads,
        transaction.accounts(true),
        transaction.accounts(false),
    );
    assert forall|thread: usize| #[trigger] may_run_on(locks, num_threads, transaction, thread)
        <==> available.contains(thread) by {
        if may_run_on(locks, num_threads, transaction, thread) {
            assert forall|account: Seq<u8>| transaction.accounts(true).contains(
                account,
            ) implies #[trigger] locks.may_write(account, thread) by {
                transaction.accounts_follow_the_flags(true, account);
            }
            assert forall|account: Seq<u8>| transaction.accounts(false).contains(
                account,
            ) implies #[trigger] locks.may_read(account, thread) by {
                transaction.accounts_follow_the_flags(false, account);
            }
        }
        if available.contains(thread) {
            assert forall|i: int| 0 <= i < transaction.account_keys@.len() implies {
                let account = (#[trigger] transaction.account_keys@[i])@;
                if locks.write.dom().contains(account) {
                    locks.write[account] == thread
                } else {
                    i < transaction.writable@.len() && transaction.writable@[i]
                        && locks.read.dom().contains(account) ==> locks.read[account]
                        == set![thread]
                }
            } by {
                let account = transaction.account_keys@[i]@;
                let write = i < transaction.writable@.len() && transaction.writable@[i];
                transaction.accounts_follow_the_flags(write, account);
                assert(transaction.accounts(write).contains(account));
                if write {
                    assert(locks.may_write(account, thread));
                } else {
                    assert(locks.may_read(account, thread));
                }
            }
        }
    }
    if forall|thread: usize| !#[trigger] may_run_on(locks, num_threads, transaction, thread) {
        assert forall|thread: usize| !available.contains(thread) by {
            assert(!may_run_on(locks, num_threads, transaction, thread));
        }
        assert(available =~= Set::<usize>::empty());
    }
    if available == Set::<usize>::empty() {
        assert(forall|thread: usize| !available.contains(thread));
    }
}

/// A thread for which a transaction's accounts are locked holds them as their
/// flags ask.
pub proof fn lemma_lock_runs_on<Tx>(locks: LockTable, transaction: RuntimeTransaction<Tx>)
    ensures
        forall|thread: usize|
            runs_on(
                #[trigger] locks.lock(
                    transaction.key_list(true),
                    transaction.key_list(false),
                    thread,
                ),
                transaction,
                thread,
            ),
{
    assert forall|thread: usize| runs_on(
        #[trigger] locks.lock(transaction.key_list(true), transaction.key_list(false), thread),
        transaction,
        thread,
    ) by {
        let after = locks.lock(transaction.key_list(true), transaction.key_list(false), thread);
        assert forall|i: int| 0 <= i < transaction.account_keys@.len() implies {
            let account = (#[trigger] transaction.account_keys@[i])@;
            if i < transaction.writable@.len() && transaction.writable@[i] {
                after.write.dom().contains(account) && after.write[account] == thread
            } else {
                after.read.dom().contains(account) && after.read[account].contains(thread)
            }
        } by {
            let account = transaction.account_keys@[i]@;
            let write = i < transaction.writable@.len() && transaction.writable@[i];
            transaction.accounts_follow_the_flags(write, account);
            assert(transaction.accounts(write).contains(account));
        }
    }
}

/// Two transactions that name an account which either of them flags writable are
/// held by one thread, wherever in the transactions the account stands.
pub proof fn writers_of_an_account_share_a_thread<Tx>(
    locks: LockTable,
    thread_a: usize,
    a: RuntimeTransaction<Tx>,
    i: int,
    thread_b: usize,
    b: RuntimeTransaction<Tx>,
    j: int,
)
    requires
        locks.exclusive(),
        holds_accounts(locks, thread_a, a),
        holds_accounts(locks, thread_b, b),
        0 <= i < a.account_keys@.len(),
        0 <= j < b.account_keys@.len(),
        a.account_keys@[i]@ == b.account_keys@[j]@,
        (i < a.writable@.len() && a.writable@[i]) || (j < b.writable@.len() && b.writable@[j]),
    ensures
        thread_a == thread_b,
{
    let account = a.account_keys@[i]@;
    let a_writes = i < a.writable@.len() && a.writable@[i];
    let b_writes = j < b.writable@.len() && b.writable@[j];
    a.accounts_follow_the_flags(a_writes, account);
    b.accounts_follow_the_flags(b_writes, account);
    assert(a.accounts(a_writes).contains(account));
    assert(b.account_keys@[j]@ == account);
    assert(b.accounts(b_writes).contains(account));
    assert(locks.write.dom().contains(account));
}

/// A transaction with the thread that a pass has put it on.
pub struct Placement {
    pub id: u64,
    pub thread: usize,
}

/// What the placed transactions cost together.
pub open spec fn total_cost<Tx>(
    states: Map<u64, TransactionState<Tx>>,
    run: Seq<Placement>,
) -> int {
    run.fold_left(0int, |total: int, placed: Placement| total + states[placed.id].cost)
}

/// What the transactions placed on one thread cost together.
pub open spec fn cost_on<Tx>(
    states: Map<u64, TransactionState<Tx>>,
    run: Seq<Placement>,
    thread: int,
) -> int {
    run.fold_left(
        0int,
        |total: int, placed: Placement|
            if placed.thread == thread {
                total + states[placed.id].cost
            } else {
                total
            },
    )
}

/// How many transactions are placed on one thread.
pub open spec fn count_on(run: Seq<Placement>, thread: int) -> int {
    run.fold_left(
        0int,
        |count: int, placed: Placement|
            if placed.thread == thread {
                count + 1
            } else {
                count
            },
    )
}

/// The transaction with the given id is placed.
pub open spec fn places_id(run: Seq<Placement>, id: u64) -> bool {
    exists|k: int| 0 <= k < run.len() && (#[trigger] run[k]).id == id
}

/// Between `a` and `b` a pass has placed just the transactions of `run`, in this
/// order. Each waited in `a` and is taken in `b`, and nothing else has happened to
/// any transaction. The budget is less by all that they cost, but not below zero,
/// and each was placed while there was budget left. Each was placed on a thread
/// that had less work than its target, and is counted as that thread's work; and
/// the threads that may still get work are those with less than their target.
#[verifier::opaque]
pub open spec fn placed<Tx>(
    limits: PassLimits,
    a: PassState<Tx>,
    b: PassState<Tx>,
    run: Seq<Placement>,
) -> bool {
    &&& forall|i: int, j: int|
        0 <= i < j < run.len() ==> (#[trigger] run[i]).id != (#[trigger] run[j]).id
    &&& forall|k: int|
        0 <= k < run.len() ==> a.states.dom().contains((#[trigger] run[k]).id)
            && a.states[run[k].id].transaction is Some
    &&& b.states.dom() == a.states.dom()
    &&& forall|id: u64| #[trigger]
        a.states.dom().contains(id) ==> if places_id(run, id) {
            &&& b.states[id].transaction is None
            &&& b.states[id].max_age == a.states[id].max_age
            &&& b.states[id].cost == a.states[id].cost
        } else {
            b.states[id] == a.states[id]
        }
    &&& b.budget == if total_cost(a.states, run) <= a.budget {
        a.budget - total_cost(a.states, run)
    } else {
        0
    }
    &&& forall|k: int|
        0 <= k < run.len() ==> total_cost(a.states, #[trigger] run.take(k)) < a.budget
    &&& b.num_scheduled == a.num_scheduled + run.len()
    &&& forall|thread: int|
        0 <= thread < limits.num_threads ==> {
            &&& b.cus_in_flight[thread] + (#[trigger] b.batches[thread]).total_cus
                == a.cus_in_flight[thread] + a.batches[thread].total_cus + cost_on(
                a.states,
                run,
                thread,
            )
            &&& b.num_in_flight[thread] + b.batches[thread].ids.len() == a.num_in_flight[thread]
                + a.batches[thread].ids.len() + count_on(run, thread)
        }
    &&& forall|k: int|
        0 <= k < run.len() ==> {
            let thread = (#[trigger] run[k]).thread;
            &&& a.schedulable.contains(thread)
            &&& thread < limits.num_threads
            &&& a.cus_in_flight[thread as int] + a.batches[thread as int].total_cus + cost_on(
                a.states,
                run.take(k),
                thread as int,
            ) < limits.target_cu_per_thread
        }
    &&& forall|thread: usize| #[trigger]
        b.schedulable.contains(thread) <==> a.schedulable.contains(thread)
            && b.cus_in_flight[thread as int] + b.batches[thread as int].total_cus
            < limits.target_cu_per_thread
}

proof fn lemma_nothing_placed<Tx>(limits: PassLimits, a: PassState<Tx>)
    requires
        a.inv(limits),
    ensures
        placed(limits, a, a, Seq::<Placement>::empty()),
{
    reveal(placed);
    assert forall|thread: usize| #[trigger] a.schedulable.contains(thread) implies a.cus_in_flight[thread as int]
        + a.batches[thread as int].total_cus < limits.target_cu_per_thread by {
        assert(super::common::thread_cus(a.batches, a.cus_in_flight, thread as int)
            < limits.target_cu_per_thread);
    }
}

proof fn lemma_placed_same_loads<Tx>(
    limits: PassLimits,
    a: PassState<Tx>,
    b: PassState<Tx>,
    c: PassState<Tx>,
    run: Seq<Placement>,
)
    requires
        b.inv(limits),
        placed(limits, a, b, run),
        c.states == b.states,
        c.budget == b.budget,
        c.num_scheduled == b.num_scheduled,
        c.schedulable == b.schedulable,
        forall|thread: int|
            0 <= thread < limits.num_threads ==> {
                &&& c.cus_in_flight[thread] + (#[trigger] c.batches[thread]).total_cus
                    == b.cus_in_flight[thread] + b.batches[thread].total_cus
                &&& c.num_in_flight[thread] + c.batches[thread].ids.len()
                    == b.num_in_flight[thread] + b.batches[thread].ids.len()
            },
        a.inv(limits),
    ensures
        placed(limits, a, c, run),
{
    reveal(placed);
    assert forall|thread: int| 0 <= thread < limits.num_threads implies {
        &&& c.cus_in_flight[thread] + (#[trigger] c.batches[thread]).total_cus
            == a.cus_in_flight[thread] + a.batches[thread].total_cus + cost_on(
            a.states,
            run,
            thread,
        )
        &&& c.num_in_flight[thread] + c.batches[thread].ids.len() == a.num_in_flight[thread]
            + a.batches[thread].ids.len() + count_on(run, thread)
    } by {
        assert(b.cus_in_flight[thread] + b.batches[thread].total_cus == a.cus_in_flight[thread]
            + a.batches[thread].total_cus + cost_on(a.states, run, thread));
    }
    assert forall|thread: usize| #[trigger] c.schedulable.contains(thread)
        <==> a.schedulable.contains(thread) && c.cus_in_flight[thread as int]
        + c.batches[thread as int].total_cus < limits.target_cu_per_thread by {
        if a.schedulable.contains(thread) {
            assert(thread < limits.num_threads);
            assert(c.batches[thread as int].total_cus + c.cus_in_flight[thread as int]
                == b.cus_in_flight[thread as int] + b.batches[thread as int].total_cus);
        }
        assert(b.schedulable.contains(thread) == c.schedulable.contains(thread));
    }
}

proof fn lemma_run_push<Tx>(
    states: Map<u64, TransactionState<Tx>>,
    run: Seq<Placement>,
    next: Placement,
)
    ensures
        total_cost(states, run.push(next)) == total_cost(states, run) + states[next.id].cost,
        forall|thread: int| #[trigger]
            cost_on(states, run.push(next), thread) == cost_on(states, run, thread) + if next.thread
                == thread {
                states[next.id].cost as int
            } else {
                0
            },
        forall|thread: int| #[trigger]
            count_on(run.push(next), thread) == count_on(run, thread) + if next.thread == thread {
                1int
            } else {
                0
            },
        forall|k: int| 0 <= k <= run.len() ==> #[trigger] run.push(next).take(k) == run.take(k),
        run.take(run.len() as int) == run,
        forall|id: u64| #[trigger]
            places_id(run.push(next), id) <==> places_id(run, id) || id == next.id,
{
    let longer = run.push(next);
    assert(longer.drop_last() =~= run);
    assert(run.take(run.len() as int) =~= run);
    assert forall|k: int| 0 <= k <= run.len() implies #[trigger] longer.take(k) == run.take(k) by {
        assert(longer.take(k) =~= run.take(k));
    }
    assert forall|id: u64| #[trigger] places_id(longer, id) <==> places_id(run, id) || id
        == next.id by {
        if places_id(run, id) {
            let k = choose|k: int| 0 <= k < run.len() && (#[trigger] run[k]).id == id;
            assert(longer[k].id == id);
        }
        if id == next.id {
            assert(longer[run.len() as int].id == id);
        }
        if places_id(longer, id) && id != next.id {
            let k = choose|k: int| 0 <= k < longer.len() && (#[trigger] longer[k]).id == id;
            assert(run[k].id == id);
        }
    }
}

proof fn lemma_scan_places<Tx>(
    limits: PassLimits,
    a: PassState<Tx>,
    b: PassState<Tx>,
    run: Seq<Placement>,
)
    requires
        a.inv(limits),
        b.inv(limits),
        b.can_scan(limits),
        placed(limits, a, b, run),
    ensures
        exists|longer: Seq<Placement>| placed(limits, a, b.scan_one(limits), longer),
{
    reveal(placed);
    let after = b.scan_one(limits);
    let head = b.queue[0];
    if b.waiting(head.id) && b.attempt(limits, b.states[head.id].transaction->0) is Thread {
        let transaction = b.states[head.id].transaction->0;
        b.attempt_picks_least_loaded(limits, transaction);
        let thread = b.attempt(limits, transaction)->Thread_0;
        assert(b.schedulable.contains(thread));
        let t = thread as int;
        let next = Placement { id: head.id, thread };
        let longer = run.push(next);
        lemma_run_push(a.states, run, next);
        assert(a.states.dom().contains(head.id));
        assert(!places_id(run, head.id));
        assert(b.states[head.id] == a.states[head.id]);
        assert(super::common::thread_cus(b.batches, b.cus_in_flight, t)
            < limits.target_cu_per_thread);
        assert(b.batches[t].total_cus + b.cus_in_flight[t] < limits.target_cu_per_thread);
        assert(after.batches[t].total_cus == b.batches[t].total_cus + b.states[head.id].cost);
        assert(after.states.dom() =~= a.states.dom());
        assert forall|i: int, j: int| 0 <= i < j < longer.len() implies (#[trigger] longer[i]).id != (
        #[trigger] longer[j]).id by {
            if j == run.len() {
                assert(longer[i] == run[i]);
                assert(places_id(run, run[i].id));
            } else {
                assert(longer[i] == run[i] && longer[j] == run[j]);
            }
        }
        assert forall|k: int| 0 <= k < longer.len() implies a.states.dom().contains(
            (#[trigger] longer[k]).id,
        ) && a.states[longer[k].id].transaction is Some by {
            if k < run.len() {
                assert(longer[k] == run[k]);
            }
        }
        assert forall|id: u64| #[trigger] a.states.dom().contains(id) implies if places_id(
            longer,
            id,
        ) {
            &&& after.states[id].transaction is None
            &&& after.states[id].max_age == a.states[id].max_age
            &&& after.states[id].cost == a.states[id].cost
        } else {
            after.states[id] == a.states[id]
        } by {
        }
        assert forall|k: int| 0 <= k < longer.len() implies total_cost(
            a.states,
            #[trigger] longer.take(k),
        ) < a.budget by {
            assert(longer.take(k) == run.take(k));
        }
        assert forall|other: int| 0 <= other < limits.num_threads implies {
            &&& after.cus_in_flight[other] + (#[trigger] after.batches[other]).total_cus
                == a.cus_in_flight[other] + a.batches[other].total_cus + cost_on(
                a.states,
                longer,
                other,
            )
            &&& after.num_in_flight[other] + after.batches[other].ids.len()
                == a.num_in_flight[other] + a.batches[other].ids.len() + count_on(longer, other)
        } by {
            assert(b.cus_in_flight[other] + b.batches[other].total_cus == a.cus_in_flight[other]
                + a.batches[other].total_cus + cost_on(a.states, run, other));
        }
        assert forall|k: int| 0 <= k < longer.len() implies {
            let on = (#[trigger] longer[k]).thread;
            &&& a.schedulable.contains(on)
            &&& on < limits.num_threads
            &&& a.cus_in_flight[on as int] + a.batches[on as int].total_cus + cost_on(
                a.states,
                longer.take(k),
                on as int,
            ) < limits.target_cu_per_thread
        } by {
            assert(longer.take(k) == run.take(k));
            if k < run.len() {
                assert(longer[k] == run[k]);
            } else {
                assert(longer[k] == next);
                assert(b.cus_in_flight[t] + b.batches[t].total_cus == a.cus_in_flight[t]
                    + a.batches[t].total_cus + cost_on(a.states, run, t));
            }
        }
        assert forall|other: usize| #[trigger] after.schedulable.contains(other)
            <==> a.schedulable.contains(other) && after.cus_in_flight[other as int]
            + after.batches[other as int].total_cus < limits.target_cu_per_thread by {
            assert(b.schedulable.contains(other) <==> a.schedulable.contains(other)
                && b.cus_in_flight[other as int] + b.batches[other as int].total_cus
                < limits.target_cu_per_thread);
            if a.schedulable.contains(other) {
                assert(other < limits.num_threads);
            }
        }
        assert(placed(limits, a, after, longer));
    } else {
        lemma_placed_same_loads(limits, a, b, after, run);
    }
}

/// A pass spends its budget on what it schedules: at every moment the budget is
/// what it was less the costs of all the transactions placed since, not below
/// zero, and each of them was placed while there was budget left. The transactions
/// taken are just those placed, and they count as the work of their threads.
pub proof fn pass_charges_what_it_schedules<Tx>(limits: PassLimits, state: PassState<Tx>)
    requires
        state.inv(limits),
    ensures
        exists|run: Seq<Placement>| placed(limits, state, state.advance(limits).0, run),
        exists|run: Seq<Placement>| placed(limits, state, completed(limits, state), run),
{
    lemma_nothing_placed(limits, state);
    lemma_placed_to_the_end(limits, state, state, Seq::empty());
}

proof fn lemma_placed_to_the_end<Tx>(
    limits: PassLimits,
    start: PassState<Tx>,
    state: PassState<Tx>,
    run: Seq<Placement>,
)
    requires
        start.inv(limits),
        state.inv(limits),
        placed(limits, start, state, run),
    ensures
        exists|longer: Seq<Placement>| placed(limits, start, state.advance(limits).0, longer),
        exists|longer: Seq<Placement>| placed(limits, start, completed(limits, state), longer),
    decreases state.queue.len(), state.phase_rank(), state.unvisited(limits),
{
    lemma_step(limits, state);
    lemma_step_keeps_inv(limits, state);
    sending_makes_progress(limits, state);
    pass_keeps_inv(limits, state);
    match step(limits, state) {
        Some(next) => {
            lemma_completed_step(limits, state);
            if state.phase == Phase::Scanning && state.can_scan(limits) {
                lemma_scan_places(limits, start, state, run);
                let longer = choose|longer: Seq<Placement>| placed(limits, start, next, longer);
                lemma_placed_to_the_end(limits, start, next, longer);
            } else {
                lemma_placed_same_loads(limits, start, state, next, run);
                lemma_placed_to_the_end(limits, start, next, run);
            }
        },
        None => match state.advance(limits).1 {
            Request::Send { thread, batch } => {
                let after = state.advance(limits).0;
                assert forall|t: int| 0 <= t < limits.num_threads implies {
                    &&& after.cus_in_flight[t] + (#[trigger] after.batches[t]).total_cus
                        == state.cus_in_flight[t] + state.batches[t].total_cus
                    &&& after.num_in_flight[t] + after.batches[t].ids.len()
                        == state.num_in_flight[t] + state.batches[t].ids.len()
                } by {
                    assert(super::common::thread_cus(state.batches, state.cus_in_flight, t)
                        <= u64::MAX);
                }
                lemma_placed_same_loads(limits, start, state, after, run);
                lemma_placed_to_the_end(limits, start, after, run);
            },
            Request::Nothing => {
                lemma_placed_same_loads(limits, start, state, state.finished(), run);
            },
        },
    }
}

/// What a pass sends, in order: each batch with the thread that it is sent to.
pub open spec fn send_log<Tx>(
    limits: PassLimits,
    state: PassState<Tx>,
) -> Seq<(usize, BatchView<Tx>)>
    decreases state.queue.len(), state.phase_rank(), state.unvisited(limits),
{
    proof {
        sending_makes_progress(limits, state);
    }
    match state.advance(limits).1 {
        Request::Send { thread, batch } => seq![(thread, batch)] + send_log(
            limits,
            state.advance(limits).0,
        ),
        Request::Nothing => Seq::empty(),
    }
}

/// The batch holds transactions as they were buffered, each with its id, its
/// maximum age and its length.
pub open spec fn holds_as_buffered<Tx>(
    states: Map<u64, TransactionState<Tx>>,
    batch: BatchView<Tx>,
) -> bool {
    &&& batch.transactions.len() == batch.ids.len()
    &&& batch.max_ages.len() == batch.ids.len()
    &&& batch.transaction_bytes.len() == batch.ids.len()
    &&& forall|k: int|
        0 <= k < batch.ids.len() ==> {
            &&& states.dom().contains(#[trigger] batch.ids[k])
            &&& states[batch.ids[k]].transaction == Some(batch.transactions[k])
            &&& states[batch.ids[k]].max_age == batch.max_ages[k]
            &&& batch.transaction_bytes[k] == batch.transactions[k].serialized_size
        }
}

/// What still waits is as it was buffered, what is batched was buffered so, and no
/// batch is larger than it may be.
pub open spec fn batches_as_buffered<Tx>(
    limits: PassLimits,
    states: Map<u64, TransactionState<Tx>>,
    state: PassState<Tx>,
) -> bool {
    &&& forall|id: u64| #[trigger]
        state.waiting(id) ==> states.dom().contains(id) && states[id] == state.states[id]
    &&& forall|thread: int|
        0 <= thread < state.batches.len() ==> {
            &&& holds_as_buffered(states, #[trigger] state.batches[thread])
            &&& state.batches[thread].ids.len() <= limits.batch_target
                || state.batches[thread].ids.len() <= 1
            &&& state.phase == Phase::Scanning ==> state.batches[thread].ids.len()
                < limits.batch_target || state.batches[thread].ids.len() == 0
        }
}

proof fn lemma_step_batches_as_buffered<Tx>(
    limits: PassLimits,
    states: Map<u64, TransactionState<Tx>>,
    state: PassState<Tx>,
)
    requires
        state.inv(limits),
        batches_as_buffered(limits, states, state),
        step(limits, state) is Some,
    ensures
        batches_as_buffered(limits, states, step(limits, state)->0),
{
    let after = step(limits, state)->0;
    lemma_step_keeps_inv(limits, state);
    assert forall|id: u64| #[trigger] after.waiting(id) implies states.dom().contains(id)
        && states[id] == after.states[id] by {
        assert(state.waiting(id));
    }
    assert forall|thread: int| 0 <= thread < after.batches.len() implies {
        &&& holds_as_buffered(states, #[trigger] after.batches[thread])
        &&& after.batches[thread].ids.len() <= limits.batch_target
            || after.batches[thread].ids.len() <= 1
        &&& after.phase == Phase::Scanning ==> after.batches[thread].ids.len()
            < limits.batch_target || after.batches[thread].ids.len() == 0
    } by {
        assert(holds_as_buffered(states, state.batches[thread]));
        let head = state.queue[0];
        if state.phase == Phase::Scanning && state.can_scan(limits) && state.waiting(head.id) {
            let transaction = state.states[head.id].transaction->0;
            state.attempt_picks_least_loaded(limits, transaction);
            match state.attempt(limits, transaction) {
                Attempt::Thread(picked) => {
                    assert(state.schedulable.contains(picked));
                    if thread == picked {
                        let before = state.batches[thread];
                        let batch = after.batches[thread];
                        assert forall|k: int| 0 <= k < batch.ids.len() implies {
                            &&& states.dom().contains(#[trigger] batch.ids[k])
                            &&& states[batch.ids[k]].transaction == Some(batch.transactions[k])
                            &&& states[batch.ids[k]].max_age == batch.max_ages[k]
                            &&& batch.transaction_bytes[k] == batch.transactions[k].serialized_size
                        } by {
                            if k < before.ids.len() {
                                assert(batch.ids[k] == before.ids[k]);
                            }
                        }
                    } else {
                        assert(after.batches[thread] == state.batches[thread]);
                    }
                },
                _ => {},
            }
        }
    }
}

/// What is sent is what was buffered: each batch that a pass sends holds at least
/// one transaction and no more than the batch size, or one where that is zero, and
/// each of them just as it was buffered, with the maximum age that it had.
pub proof fn sent_work_is_as_buffered<Tx>(
    limits: PassLimits,
    states: Map<u64, TransactionState<Tx>>,
    state: PassState<Tx>,
)
    requires
        state.inv(limits),
        batches_as_buffered(limits, states, state),
    ensures
        forall|n: int|
            0 <= n < send_log(limits, state).len() ==> {
                let (thread, batch) = #[trigger] send_log(limits, state)[n];
                &&& thread < limits.num_threads
                &&& 0 < batch.ids.len()
                &&& batch.ids.len() <= limits.batch_target || batch.ids.len() == 1
                &&& holds_as_buffered(states, batch)
            },
    decreases state.queue.len(), state.phase_rank(), state.unvisited(limits),
{
    lemma_step(limits, state);
    lemma_step_keeps_inv(limits, state);
    sending_makes_progress(limits, state);
    pass_keeps_inv(limits, state);
    match step(limits, state) {
        Some(next) => {
            lemma_step_batches_as_buffered(limits, states, state);
            sent_work_is_as_buffered(limits, states, next);
            assert(send_log(limits, state) == send_log(limits, next));
        },
        None => match state.advance(limits).1 {
            Request::Send { thread, batch } => {
                let after = state.advance(limits).0;
                assert forall|id: u64| #[trigger] after.waiting(id) implies states.dom().contains(
                    id,
                ) && states[id] == after.states[id] by {
                    assert(state.waiting(id));
                }
                assert forall|t: int| 0 <= t < after.batches.len() implies {
                    &&& holds_as_buffered(states, #[trigger] after.batches[t])
                    &&& after.batches[t].ids.len() <= limits.batch_target
                        || after.batches[t].ids.len() <= 1
                } by {
                    assert(holds_as_buffered(states, state.batches[t]));
                }
                sent_work_is_as_buffered(limits, states, after);
                let log = send_log(limits, state);
                assert(holds_as_buffered(states, state.batches[thread as int]));
                assert forall|n: int| 0 <= n < log.len() implies {
                    let (thread, batch) = #[trigger] log[n];
                    &&& thread < limits.num_threads
                    &&& 0 < batch.ids.len()
                    &&& batch.ids.len() <= limits.batch_target || batch.ids.len() == 1
                    &&& holds_as_buffered(states, batch)
                } by {
                    if n > 0 {
                        assert(log[n] == send_log(limits, after)[n - 1]);
                    }
                }
            },
            Request::Nothing => {},
        },
    }
}

/// The batch holds a transaction, and as many as make up the batch size.
pub open spec fn is_full<Tx>(limits: PassLimits, batch: BatchView<Tx>) -> bool {
    batch.ids.len() > 0 && batch.ids.len() >= limits.batch_target
}

/// A round of sending in the midst of a pass has a cause: where a pass goes from
/// scanning to sending without being over, some batch has reached the batch size.
pub proof fn batches_are_sent_when_one_is_full<Tx>(limits: PassLimits, state: PassState<Tx>)
    requires
        state.inv(limits),
        match state.phase {
            Phase::Scanning => true,
            Phase::Flushing { next, last } => !last ==> exists|full: int|
                next <= full < limits.num_threads && is_full(limits, #[trigger] state.batches[full]),
        },
    ensures
        ({
            let (after, request) = state.advance(limits);
            match (request, after.phase) {
                (
                    Request::Send { thread, batch },
                    Phase::Flushing { next, last },
                ) => !last ==> is_full(limits, batch) || exists|full: int|
                    thread < full < limits.num_threads && is_full(
                        limits,
                        #[trigger] after.batches[full],
                    ),
                _ => true,
            }
        }),
    decreases state.queue.len(), state.phase_rank(), state.unvisited(limits),
{
    lemma_step(limits, state);
    lemma_step_keeps_inv(limits, state);
    match step(limits, state) {
        Some(next) => {
            match state.phase {
                Phase::Scanning => {
                    if state.can_scan(limits) && next.phase != Phase::Scanning {
                        let head = state.queue[0];
                        let transaction = state.states[head.id].transaction->0;
                        state.attempt_picks_least_loaded(limits, transaction);
                        let picked = state.attempt(limits, transaction)->Thread_0;
                        assert(state.schedulable.contains(picked));
                        assert(is_full(limits, next.batches[picked as int]));
                    }
                },
                Phase::Flushing { next: at, last } => {
                    if at < limits.num_threads && !last {
                        let full = choose|full: int|
                            at <= full < limits.num_threads && is_full(
                                limits,
                                #[trigger] state.batches[full],
                            );
                        assert(is_full(limits, next.batches[full]));
                    }
                },
            }
            batches_are_sent_when_one_is_full(limits, next);
        },
        None => match state.phase {
            Phase::Flushing { next: at, last } => {
                if at < limits.num_threads && !last {
                    let after = state.advance(limits).0;
                    let full = choose|full: int|
                        at <= full < limits.num_threads && is_full(
                            limits,
                            #[trigger] state.batches[full],
                        );
                    if full != at {
                        assert(is_full(limits, after.batches[full]));
                    }
                }
            },
            Phase::Scanning => {},
        },
    }
}

/// Locking accounts makes no thread free to run a transaction that it was not free
/// to run before.
proof fn lemma_locking_frees_no_thread<Tx>(
    locks: LockTable,
    num_threads: nat,
    locked: RuntimeTransaction<Tx>,
    by: usize,
    transaction: RuntimeTransaction<Tx>,
    thread: usize,
)
    requires
        locks.available(num_threads, locked.accounts(true), locked.accounts(false)).contains(by),
        forall|account: Seq<u8>| #[trigger]
            locks.read.dom().contains(account) ==> locks.read[account] != Set::<usize>::empty(),
        may_run_on(
            locks.lock(locked.key_list(true), locked.key_list(false), by),
            num_threads,
            transaction,
            thread,
        ),
    ensures
        may_run_on(locks, num_threads, transaction, thread),
{
    let after = locks.lock(locked.key_list(true), locked.key_list(false), by);
    assert forall|i: int| 0 <= i < transaction.account_keys@.len() implies {
        let account = (#[trigger] transaction.account_keys@[i])@;
        if locks.write.dom().contains(account) {
            locks.write[account] == thread
        } else {
            i < transaction.writable@.len() && transaction.writable@[i]
                && locks.read.dom().contains(account) ==> locks.read[account] == set![thread]
        }
    } by {
        let account = transaction.account_keys@[i]@;
        if locked.accounts(true).contains(account) {
            assert(locks.may_write(account, by));
            assert(after.write[account] == by);
        } else if !locks.write.dom().contains(account) && i < transaction.writable@.len()
            && transaction.writable@[i] && locks.read.dom().contains(account) {
            assert(after.read[account] == set![thread]);
            let holder = locks.read[account].choose();
            assert(locks.read[account].contains(holder)) by {
                if forall|t: usize| !locks.read[account].contains(t) {
                    assert(locks.read[account] =~= Set::<usize>::empty());
                }
            }
            assert(after.read[account].contains(holder));
            assert(holder == thread);
            assert forall|t: usize| locks.read[account].contains(t) implies t == thread by {
                assert(after.read[account].contains(t));
            }
            assert(locks.read[account] =~= set![thread]);
        }
    }
}

/// Of every account that is locked for reading there is a reader.
pub open spec fn readers_are_there(locks: LockTable) -> bool {
    forall|account: Seq<u8>| #[trigger]
        locks.read.dom().contains(account) ==> locks.read[account] != Set::<usize>::empty()
}

/// No thread that may get further transactions may run one that was set aside.
pub open spec fn set_aside_rightly<Tx>(limits: PassLimits, state: PassState<Tx>) -> bool {
    forall|i: int, thread: usize|
        0 <= i < state.unschedulables.len() && state.waiting(
            (#[trigger] state.unschedulables[i]).id,
        ) && #[trigger] state.schedulable.contains(thread) ==> !may_run_on(
            state.locks,
            limits.num_threads as nat,
            state.states[state.unschedulables[i].id].transaction->0,
            thread,
        )
}

/// A pass that is about to end has come to one of its limits, or to the end of the
/// queue.
pub open spec fn ends_rightly<Tx>(limits: PassLimits, state: PassState<Tx>) -> bool {
    match state.phase {
        Phase::Scanning => true,
        Phase::Flushing { next, last } => last ==> {
            ||| state.budget == 0
            ||| state.num_scanned >= limits.max_scanned
            ||| forall|thread: usize| !#[trigger] state.schedulable.contains(thread)
            ||| state.queue.len() == 0
        },
    }
}

proof fn lemma_step_sets_aside_rightly<Tx>(limits: PassLimits, state: PassState<Tx>)
    requires
        state.inv(limits),
        readers_are_there(state.locks),
        set_aside_rightly(limits, state),
        ends_rightly(limits, state),
        step(limits, state) is Some,
    ensures
        readers_are_there(step(limits, state)->0.locks),
        set_aside_rightly(limits, step(limits, state)->0),
        ends_rightly(limits, step(limits, state)->0),
{
    let after = step(limits, state)->0;
    if state.phase == Phase::Scanning && !state.can_scan(limits) {
        if state.schedulable == Set::<usize>::empty() {
            assert(forall|thread: usize| !state.schedulable.contains(thread));
        }
    }
    if state.phase == Phase::Scanning && state.can_scan(limits) {
        let head = state.queue[0];
        if state.waiting(head.id) {
            let transaction = state.states[head.id].transaction->0;
            let num_threads = limits.num_threads as nat;
            state.attempt_picks_least_loaded(limits, transaction);
            lemma_may_run_on(state.locks, num_threads, transaction);
            match state.attempt(limits, transaction) {
                Attempt::Thread(by) => {
                    assert forall|account: Seq<u8>| #[trigger] after.locks.read.dom().contains(
                        account,
                    ) implies after.locks.read[account] != Set::<usize>::empty() by {
                        if transaction.accounts(false).contains(account) {
                            assert(after.locks.read[account].contains(by));
                        } else {
                            assert(state.locks.read.dom().contains(account));
                        }
                    }
                    assert forall|i: int, thread: usize|
                        0 <= i < after.unschedulables.len() && after.waiting(
                            (#[trigger] after.unschedulables[i]).id,
                        ) && #[trigger] after.schedulable.contains(thread) implies !may_run_on(
                        after.locks,
                        num_threads,
                        after.states[after.unschedulables[i].id].transaction->0,
                        thread,
                    ) by {
                        let id = state.unschedulables[i].id;
                        let other = state.states[id].transaction->0;
                        assert(state.waiting(id));
                        assert(state.schedulable.contains(thread));
                        if may_run_on(after.locks, num_threads, other, thread) {
                            lemma_locking_frees_no_thread(
                                state.locks,
                                num_threads,
                                transaction,
                                by,
                                other,
                                thread,
                            );
                        }
                    }
                },
                _ => {
                    let candidates = state.available(limits, transaction).intersect(
                        state.schedulable,
                    );
                    assert(candidates =~= Set::<usize>::empty());
                    assert forall|i: int, thread: usize|
                        0 <= i < after.unschedulables.len() && after.waiting(
                            (#[trigger] after.unschedulables[i]).id,
                        ) && #[trigger] after.schedulable.contains(thread) implies !may_run_on(
                        after.locks,
                        num_threads,
                        after.states[after.unschedulables[i].id].transaction->0,
                        thread,
                    ) by {
                        assert(state.schedulable.contains(thread));
                        if i < state.unschedulables.len() {
                            assert(after.unschedulables[i] == state.unschedulables[i]);
                            assert(state.waiting(state.unschedulables[i].id));
                        } else {
                            assert(!candidates.contains(thread));
                        }
                    }
                },
            }
        } else {
            lemma_set_aside_elsewhere(limits, state, after);
        }
    } else {
        lemma_set_aside_elsewhere(limits, state, after);
    }
}

proof fn lemma_set_aside_elsewhere<Tx>(
    limits: PassLimits,
    state: PassState<Tx>,
    after: PassState<Tx>,
)
    requires
        set_aside_rightly(limits, state),
        after.unschedulables == state.unschedulables,
        after.states == state.states,
        after.locks == state.locks,
        after.schedulable == state.schedulable,
    ensures
        set_aside_rightly(limits, after),
{
    assert forall|i: int, thread: usize|
        0 <= i < after.unschedulables.len() && after.waiting(
            (#[trigger] after.unschedulables[i]).id,
        ) && #[trigger] after.schedulable.contains(thread) implies !may_run_on(
        after.locks,
        limits.num_threads as nat,
        after.states[after.unschedulables[i].id].transaction->0,
        thread,
    ) by {
        assert(state.waiting(state.unschedulables[i].id));
        assert(state.schedulable.contains(thread));
    }
}

/// A pass leaves nothing undone: unless its budget is spent or it has scanned as
/// many entries as it may, no transaction that is still queued when it ends could
/// run on a thread that may get further transactions.
pub proof fn pass_leaves_nothing_schedulable<Tx>(
    limits: PassLimits,
    state: PassState<Tx>,
    entry: TransactionPriorityId,
    thread: usize,
)
    requires
        state.inv(limits),
        readers_are_there(state.locks),
        set_aside_rightly(limits, state),
        ends_rightly(limits, state),
        queued(state, entry),
        completed(limits, state).waiting(entry.id),
        completed(limits, state).schedulable.contains(thread),
        completed(limits, state).budget > 0,
        completed(limits, state).num_scanned < limits.max_scanned,
    ensures
        !may_run_on(
            completed(limits, state).locks,
            limits.num_threads as nat,
            completed(limits, state).states[entry.id].transaction->0,
            thread,
        ),
    decreases state.queue.len(), state.phase_rank(), state.unvisited(limits),
{
    lemma_step(limits, state);
    lemma_step_keeps_inv(limits, state);
    sending_makes_progress(limits, state);
    pass_keeps_inv(limits, state);
    taken_transactions_stay_taken(limits, state);
    match step(limits, state) {
        Some(next) => {
            lemma_completed_step(limits, state);
            lemma_step_sets_aside_rightly(limits, state);
            taken_transactions_stay_taken(limits, next);
            assert(next.waiting(entry.id));
            if state.phase == Phase::Scanning && state.can_scan(limits) {
                lemma_scanning_loses_nothing(limits, state);
            }
            assert(queued(next, entry));
            pass_leaves_nothing_schedulable(limits, next, entry, thread);
        },
        None => match state.advance(limits).1 {
            Request::Send { thread: to, batch } => {
                let after = state.advance(limits).0;
                lemma_set_aside_elsewhere(limits, state, after);
                assert(queued(after, entry));
                pass_leaves_nothing_schedulable(limits, after, entry, thread);
            },
            Request::Nothing => {
                let end = state.finished();
                assert(state.schedulable.contains(thread));
                assert(state.queue.len() == 0);
                assert(state.unschedulables.contains(entry));
                let i = state.unschedulables.index_of(entry);
                assert(state.unschedulables[i] == entry);
                assert(state.waiting(entry.id));
            },
        },
    }
}

/// What a pass does with the first entry of the queue is told by the flags of the
/// transaction's accounts, by who holds these, and by which threads may get work:
/// it is scheduled where some such thread may run it, and otherwise set aside and
/// counted by the reason.
pub proof fn scan_goes_by_flags_and_holders<Tx>(limits: PassLimits, state: PassState<Tx>)
    requires
        state.inv(limits),
        state.phase == Phase::Scanning,
        state.queue.len() > 0,
    ensures
        ({
            let head = state.queue[0];
            let after = state.scan_one(limits);
            let transaction = state.states[head.id].transaction->0;
            let n = limits.num_threads as nat;
            let waits = state.states.dom().contains(head.id)
                && state.states[head.id].transaction is Some;
            let runnable = exists|thread: usize| #[trigger]
                may_run_on(state.locks, n, transaction, thread);
            let schedulable = exists|thread: usize| #[trigger]
                may_run_on(state.locks, n, transaction, thread) && state.schedulable.contains(
                    thread,
                );
            let scheduled: int = if waits && schedulable { 1 } else { 0 };
            let conflicts: int = if waits && !runnable { 1 } else { 0 };
            let threads: int = if waits && runnable && !schedulable { 1 } else { 0 };
            &&& after.queue == state.queue.drop_first()
            &&& after.num_scanned == state.num_scanned + 1
            &&& after.num_sent == state.num_sent
            &&& after.num_scheduled == state.num_scheduled + scheduled
            &&& after.num_unschedulable_conflicts == state.num_unschedulable_conflicts + conflicts
            &&& after.num_unschedulable_threads == state.num_unschedulable_threads + threads
            &&& after.unschedulables == if conflicts + threads == 1 {
                state.unschedulables.push(head)
            } else {
                state.unschedulables
            }
            &&& after.cus_in_flight == state.cus_in_flight
            &&& after.num_in_flight == state.num_in_flight
            &&& scheduled == 0 ==> after.states == state.states && after.locks == state.locks
                && after.batches == state.batches && after.budget == state.budget
                && after.schedulable == state.schedulable
            &&& scheduled == 1 ==> exists|thread: usize|
                {
                    let t = thread as int;
                    let load = |u: int| state.batches[u].total_cus + state.cus_in_flight[u];
                    let count = |u: int| state.batches[u].ids.len() + state.num_in_flight[u];
                    &&& #[trigger] may_run_on(state.locks, n, transaction, thread)
                    &&& state.schedulable.contains(thread)
                    &&& runs_on(after.locks, transaction, thread)
                    &&& after.batches[t].ids == state.batches[t].ids.push(head.id)
                    &&& forall|u: int|
                        0 <= u < limits.num_threads && u != t ==> #[trigger] after.batches[u]
                            == state.batches[u]
                    &&& forall|other: usize| #[trigger]
                        may_run_on(state.locks, n, transaction, other)
                            && state.schedulable.contains(other) ==> {
                            let u = other as int;
                            ||| load(t) < load(u)
                            ||| load(t) == load(u) && count(t) < count(u)
                            ||| load(t) == load(u) && count(t) == count(u) && t <= u
                        }
                }
        }),
{
    let head = state.queue[0];
    let after = state.scan_one(limits);
    if state.waiting(head.id) {
        let transaction = state.states[head.id].transaction->0;
        let n = limits.num_threads as nat;
        lemma_may_run_on(state.locks, n, transaction);
        lemma_lock_runs_on(state.locks, transaction);
        state.attempt_picks_least_loaded(limits, transaction);
        let available = state.available(limits, transaction);
        let candidates = available.intersect(state.schedulable);
        if candidates == Set::<usize>::empty() {
            assert forall|thread: usize| !(#[trigger] may_run_on(
                state.locks,
                n,
                transaction,
                thread,
            ) && state.schedulable.contains(thread)) by {
                assert(!candidates.contains(thread));
            }
        } else {
            assert(available != Set::<usize>::empty()) by {
                if available == Set::<usize>::empty() {
                    assert(candidates =~= Set::<usize>::empty());
                }
            }
            let thread = state.attempt(limits, transaction)->Thread_0;
            assert(candidates.contains(thread));
            assert(available.contains(thread));
            assert(may_run_on(state.locks, n, transaction, thread));
            assert(state.schedulable.contains(thread));
            let t = thread as int;
            assert forall|other: usize| #[trigger] may_run_on(state.locks, n, transaction, other)
                && state.schedulable.contains(other) implies {
                let u = other as int;
                let load = |u: int| state.batches[u].total_cus + state.cus_in_flight[u];
                let count = |u: int| state.batches[u].ids.len() + state.num_in_flight[u];
                ||| load(t) < load(u)
                ||| load(t) == load(u) && count(t) < count(u)
                ||| load(t) == load(u) && count(t) == count(u) && t <= u
            } by {
                assert(candidates.contains(other));
            }
            assert(runs_on(after.locks, transaction, thread));
            assert(after.batches[t].ids == state.batches[t].ids.push(head.id));
        }
    }
}

/// Every entry that a pass scans is scheduled or set aside, and counted once.
pub proof fn scanned_entries_are_counted<Tx>(limits: PassLimits, state: PassState<Tx>)
    requires
        state.inv(limits),
        tidy(state),
    ensures
        ({
            let end = completed(limits, state);
            end.num_scanned - state.num_scanned == (end.num_scheduled - state.num_scheduled) + (
            end.num_unschedulable_conflicts - state.num_unschedulable_conflicts) + (
            end.num_unschedulable_threads - state.num_unschedulable_threads)
        }),
{
    let kept = |a: PassState<Tx>, b: PassState<Tx>|
        tidy(a) ==> tidy(b) && b.num_scanned - a.num_scanned == (b.num_scheduled
            - a.num_scheduled) + (b.num_unschedulable_conflicts - a.num_unschedulable_conflicts)
            + (b.num_unschedulable_threads - a.num_unschedulable_threads);
    assert(kept_by_steps(limits, kept)) by {
        assert forall|a: PassState<Tx>, b: PassState<Tx>|
            #[trigger] kept(a, b) && b.inv(limits) && b.phase == Phase::Scanning && b.can_scan(
                limits,
            ) implies kept(a, b.scan_one(limits)) by {
            if tidy(a) {
                lemma_accounts_for_itself(b);
                lemma_scanning_accounts(limits, b, b);
                assert(b.waiting(b.queue[0].id));
            }
        }
        assert forall|a: PassState<Tx>, b: PassState<Tx>, phase: Phase| kept(a, b) implies #[trigger] kept(
            a,
            PassState { phase, ..b },
        ) by {
            lemma_accounts_of_same_entries(b, b, PassState { phase, ..b });
        }
        assert forall|a: PassState<Tx>, b: PassState<Tx>, next: usize, last: bool|
            kept(a, b) && next < limits.num_threads && b.inv(limits) implies #[trigger] kept(
            a,
            b.sent(next, last),
        ) by {
            lemma_accounts_of_same_entries(b, b, b.sent(next, last));
        }
        assert forall|a: PassState<Tx>, b: PassState<Tx>|
            #[trigger] kept(a, b) && b.inv(limits) implies kept(a, b.finished()) by {
            if tidy(a) {
                lemma_accounts_for_itself(b);
                lemma_finishing_accounts(b, b);
            }
        }
    }
    lemma_kept_to_the_end(limits, kept, state, state);
}

proof fn lemma_accounts_for_itself<Tx>(state: PassState<Tx>)
    requires
        tidy(state),
    ensures
        accounts_for(state, state),
{
    assert forall|entry: TransactionPriorityId| #[trigger] queued(state, entry) implies state.waiting(
        entry.id,
    ) by {
        lemma_tidy_waits(state, entry);
    }
}

/// The transactions of `run` are just those with the ids in `sent`, without
/// repetition; each waited in `states`. The budget at the end is `budget` less all
/// their costs, but not below zero. Each was placed while the costs of those before
/// it were less than the budget, on one of the threads given, with less work than
/// `target`; and they count as the work of their threads.
pub open spec fn spent<Tx>(
    states: Map<u64, TransactionState<Tx>>,
    cus: Seq<u64>,
    counts: Seq<usize>,
    threads: Set<usize>,
    budget: u64,
    target: u64,
    sent: Seq<u64>,
    end: PassState<Tx>,
    run: Seq<Placement>,
) -> bool {
    &&& forall|i: int, j: int|
        0 <= i < j < run.len() ==> (#[trigger] run[i]).id != (#[trigger] run[j]).id
    &&& forall|k: int|
        0 <= k < run.len() ==> {
            let thread = (#[trigger] run[k]).thread;
            &&& states.dom().contains(run[k].id)
            &&& states[run[k].id].transaction is Some
            &&& threads.contains(thread)
            &&& total_cost(states, run.take(k)) < budget
            &&& cus[thread as int] + cost_on(states, run.take(k), thread as int) < target
        }
    &&& forall|id: u64| #[trigger] places_id(run, id) <==> sent.contains(id)
    &&& end.budget == if total_cost(states, run) <= budget {
        budget - total_cost(states, run)
    } else {
        0
    }
    &&& forall|thread: int|
        0 <= thread < cus.len() ==> {
            &&& end.cus_in_flight[thread] + (#[trigger] end.batches[thread]).total_cus
                == cus[thread] + cost_on(states, run, thread)
            &&& end.num_in_flight[thread] == counts[thread] + count_on(run, thread)
        }
}

/// A pass that `schedule` has started spends its budget on what it sends. Some
/// sequence of transactions, each of which waited at the start, are just the ones
/// sent by the end; the budget is less by all their costs, but not below zero; each
/// was placed while the costs of those before it were less than the budget, on a
/// thread whose work was less than its target; and they count as the work of their
/// threads.
pub proof fn started_pass_spends_its_budget<Tx, S: StateContainer<Tx>>(
    scheduler: OozeScheduler<Tx>,
    container: S,
    pass: SchedulingPass,
)
    requires
        super::ooze_scheduler::resumable(scheduler, container, pass),
        scheduler.common().batches_empty(),
    ensures
        ({
            let limits = super::ooze_scheduler::pass_limits(scheduler, pass);
            let state = super::ooze_scheduler::pass_state(scheduler, container, pass);
            let end = completed(limits, state);
            exists|run: Seq<Placement>|
                spent(
                    container.states(),
                    scheduler.common().cus_in_flight_per_thread@,
                    scheduler.common().num_in_flight_per_thread@,
                    super::locks::threads_in(pass.schedulable_threads),
                    pass.budget,
                    pass.target_cu_per_thread,
                    dispatched(limits, state),
                    end,
                    run,
                ) && end.num_scheduled == pass.num_scheduled + run.len()
        }),
{
    let limits = super::ooze_scheduler::pass_limits(scheduler, pass);
    let state = super::ooze_scheduler::pass_state(scheduler, container, pass);
    let end = completed(limits, state);
    let states = container.states();
    lemma_started_pass(scheduler, container, pass);
    pass_charges_what_it_schedules(limits, state);
    every_scheduled_transaction_is_sent(limits, state);
    reveal(placed);
    let run = choose|run: Seq<Placement>| placed(limits, state, end, run);
    assert(placed(limits, state, end, run));
    assert forall|thread: int| 0 <= thread < limits.num_threads implies #[trigger] state.batches[thread]
        == BatchView::<Tx>::empty() by {
        assert(scheduler.common().batches@[thread]@ == BatchView::<Tx>::empty());
    }
    assert forall|k: int| 0 <= k < run.len() implies {
        let thread = (#[trigger] run[k]).thread;
        &&& states.dom().contains(run[k].id)
        &&& states[run[k].id].transaction is Some
        &&& super::locks::threads_in(pass.schedulable_threads).contains(thread)
        &&& total_cost(states, run.take(k)) < pass.budget
        &&& scheduler.common().cus_in_flight_per_thread@[thread as int] + cost_on(
            states,
            run.take(k),
            thread as int,
        ) < pass.target_cu_per_thread
    } by {
        assert(state.batches[run[k].thread as int] == BatchView::<Tx>::empty());
        assert(total_cost(state.states, run.take(k)) < state.budget);
    }
    assert forall|id: u64| #[trigger] places_id(run, id) <==> dispatched(limits, state).contains(
        id,
    ) by {
        taken_transactions_are_sent(limits, state, id);
        if places_id(run, id) {
            let k = choose|k: int| 0 <= k < run.len() && (#[trigger] run[k]).id == id;
            assert(state.states.dom().contains(run[k].id));
            assert(state.waiting(id));
            assert(!end.waiting(id));
        }
        if dispatched(limits, state).contains(id) {
            sent_transactions_no_longer_wait(limits, state, id);
            if in_batch(state, id) {
                let t = choose|t: int|
                    0 <= t < state.batches.len() && (#[trigger] state.batches[t]).ids.contains(id);
                assert(state.batches[t] == BatchView::<Tx>::empty());
            }
            assert(state.waiting(id));
            assert(state.states.dom().contains(id));
        }
    }
    assert forall|thread: int| 0 <= thread < limits.num_threads implies {
        &&& end.cus_in_flight[thread] + (#[trigger] end.batches[thread]).total_cus
            == scheduler.common().cus_in_flight_per_thread@[thread] + cost_on(states, run, thread)
        &&& end.num_in_flight[thread] == scheduler.common().num_in_flight_per_thread@[thread]
            + count_on(run, thread)
    } by {
        assert(state.batches[thread] == BatchView::<Tx>::empty());
        assert(end.batches[thread].ids.len() == 0);
    }
    assert(spent(
        container.states(),
        scheduler.common().cus_in_flight_per_thread@,
        scheduler.common().num_in_flight_per_thread@,
        super::locks::threads_in(pass.schedulable_threads),
        pass.budget,
        pass.target_cu_per_thread,
        dispatched(limits, state),
        end,
        run,
    ));
}

/// A pass that `schedule` has started leaves nothing undone: unless its budget is
/// spent, or it has scanned as many entries as the configuration allows, no
/// transaction that is still waiting when it ends could run on a thread that had
/// less work than its target at the start and has less at the end.
pub proof fn started_pass_leaves_nothing_schedulable<Tx, S: StateContainer<Tx>>(
    scheduler: OozeScheduler<Tx>,
    container: S,
    pass: SchedulingPass,
    entry: TransactionPriorityId,
    thread: usize,
)
    requires
        super::ooze_scheduler::resumable(scheduler, container, pass),
        pass.phase == Phase::Scanning,
        scheduler.unschedulables().len() == 0,
        readers_are_there(super::locks::lock_table(scheduler.common().account_locks)),
        container.queue().contains(entry),
        super::locks::threads_in(pass.schedulable_threads).contains(thread),
    ensures
        ({
            let limits = super::ooze_scheduler::pass_limits(scheduler, pass);
            let state = super::ooze_scheduler::pass_state(scheduler, container, pass);
            let end = completed(limits, state);
            ||| end.budget == 0
            ||| end.num_scanned
                >= scheduler.config().max_scanned_transactions_per_scheduling_pass
            ||| !(end.states.dom().contains(entry.id) && end.states[entry.id].transaction is Some)
            ||| end.cus_in_flight[thread as int] + end.batches[thread as int].total_cus
                >= pass.target_cu_per_thread
            ||| !may_run_on(
                end.locks,
                scheduler.common().batches@.len(),
                end.states[entry.id].transaction->0,
                thread,
            )
        }),
{
    let limits = super::ooze_scheduler::pass_limits(scheduler, pass);
    let state = super::ooze_scheduler::pass_state(scheduler, container, pass);
    let end = completed(limits, state);
    pass_charges_what_it_schedules(limits, state);
    assert(state.schedulable.contains(thread));
    assert(end.schedulable.contains(thread) <==> end.cus_in_flight[thread as int]
        + end.batches[thread as int].total_cus < limits.target_cu_per_thread) by {
        reveal(placed);
        let run = choose|run: Seq<Placement>| placed(limits, state, end, run);
        assert(placed(limits, state, end, run));
    }
    assert(queued(state, entry));
    if end.waiting(entry.id) && end.schedulable.contains(thread) && end.budget > 0
        && end.num_scanned < limits.max_scanned {
        pass_leaves_nothing_schedulable(limits, state, entry, thread);
    }
}

/// What a pass that `schedule` has started sends is what the container buffered:
/// each batch goes to one of the threads and holds at least one transaction and no
/// more than the configured batch size, or one where that is zero, each just as it
/// was buffered under its id. No more entries are scanned than the configuration
/// allows.
pub proof fn started_pass_sends_what_was_buffered<Tx, S: StateContainer<Tx>>(
    scheduler: OozeScheduler<Tx>,
    container: S,
    pass: SchedulingPass,
)
    requires
        super::ooze_scheduler::resumable(scheduler, container, pass),
        scheduler.common().batches_empty(),
        pass.num_scanned == 0,
    ensures
        ({
            let limits = super::ooze_scheduler::pass_limits(scheduler, pass);
            let state = super::ooze_scheduler::pass_state(scheduler, container, pass);
            let log = send_log(limits, state);
            let target = scheduler.config().target_transactions_per_batch;
            let states = container.states();
            &&& completed(limits, state).num_scanned
                <= scheduler.config().max_scanned_transactions_per_scheduling_pass
            &&& forall|n: int|
                0 <= n < log.len() ==> {
                    let (thread, batch) = #[trigger] log[n];
                    &&& thread < scheduler.common().batches@.len()
                    &&& 0 < batch.ids.len()
                    &&& batch.ids.len() <= target || batch.ids.len() == 1
                    &&& batch.transactions.len() == batch.ids.len()
                    &&& batch.max_ages.len() == batch.ids.len()
                    &&& forall|k: int|
                        0 <= k < batch.ids.len() ==> {
                            &&& states.dom().contains(#[trigger] batch.ids[k])
                            &&& states[batch.ids[k]].transaction == Some(batch.transactions[k])
                            &&& states[batch.ids[k]].max_age == batch.max_ages[k]
                        }
                }
        }),
{
    let limits = super::ooze_scheduler::pass_limits(scheduler, pass);
    let state = super::ooze_scheduler::pass_state(scheduler, container, pass);
    assert forall|thread: int| 0 <= thread < state.batches.len() implies #[trigger] state.batches[thread]
        == BatchView::<Tx>::empty() by {
        assert(scheduler.common().batches@[thread]@ == BatchView::<Tx>::empty());
    }
    sent_work_is_as_buffered(limits, container.states(), state);
    pass_stays_within_limits(limits, state);
}

/// In a pass that `schedule` has started, two transactions that name an account
/// which either of them flags writable, wherever it stands in them, never come to be
/// outstanding on different threads.
pub proof fn started_pass_keeps_writers_on_one_thread<Tx, S: StateContainer<Tx>>(
    scheduler: OozeScheduler<Tx>,
    container: S,
    pass: SchedulingPass,
    in_flight: Set<(usize, RuntimeTransaction<Tx>)>,
    thread_a: usize,
    a: RuntimeTransaction<Tx>,
    i: int,
    thread_b: usize,
    b: RuntimeTransaction<Tx>,
    j: int,
)
    requires
        super::ooze_scheduler::resumable(scheduler, container, pass),
        scheduler.common().batches_empty(),
        super::locks::lock_table(scheduler.common().account_locks).exclusive(),
        forall|thread: usize, transaction: RuntimeTransaction<Tx>| #[trigger]
            in_flight.contains((thread, transaction)) ==> runs_on(
                super::locks::lock_table(scheduler.common().account_locks),
                transaction,
                thread,
            ),
        outstanding(
            super::ooze_scheduler::pass_limits(scheduler, pass),
            super::ooze_scheduler::pass_state(scheduler, container, pass),
            in_flight,
            thread_a,
            a,
        ),
        outstanding(
            super::ooze_scheduler::pass_limits(scheduler, pass),
            super::ooze_scheduler::pass_state(scheduler, container, pass),
            in_flight,
            thread_b,
            b,
        ),
        0 <= i < a.account_keys@.len(),
        0 <= j < b.account_keys@.len(),
        a.account_keys@[i]@ == b.account_keys@[j]@,
        (i < a.writable@.len() && a.writable@[i]) || (j < b.writable@.len() && b.writable@[j]),
    ensures
        thread_a == thread_b,
{
    let locks = super::locks::lock_table(scheduler.common().account_locks);
    let limits = super::ooze_scheduler::pass_limits(scheduler, pass);
    let state = super::ooze_scheduler::pass_state(scheduler, container, pass);
    assert forall|thread: usize, transaction: RuntimeTransaction<Tx>| #[trigger] in_flight.contains(
        (thread, transaction),
    ) implies holds_accounts(locks, thread, transaction) by {
        lemma_runs_on_holds(locks, thread, transaction);
    }
    started_pass_keeps_conflicts_on_one_thread(scheduler, container, pass, in_flight);
    writers_of_an_account_share_a_thread(
        completed(limits, state).locks,
        thread_a,
        a,
        i,
        thread_b,
        b,
        j,
    );
}

proof fn lemma_runs_on_holds<Tx>(
    locks: LockTable,
    thread: usize,
    transaction: RuntimeTransaction<Tx>,
)
    requires
        runs_on(locks, transaction, thread),
    ensures
        holds_accounts(locks, thread, transaction),
{
    assert forall|account: Seq<u8>| #[trigger] transaction.accounts(true).contains(
        account,
    ) implies locks.write.dom().contains(account) && locks.write[account] == thread by {
        transaction.accounts_follow_the_flags(true, account);
    }
    assert forall|account: Seq<u8>| #[trigger] transaction.accounts(false).contains(
        account,
    ) implies locks.read.dom().contains(account) && locks.read[account].contains(thread) by {
        transaction.accounts_follow_the_flags(false, account);
    }
}

/// A round of sending sends everything: a pass goes from sending back to scanning,
/// or to its end, only when no batch holds a transaction.
pub proof fn round_of_sending_empties_all_batches<Tx>(
    limits: PassLimits,
    state: PassState<Tx>,
    thread: int,
)
    requires
        state.inv(limits),
        state.phase is Flushing,
        0 <= thread < limits.num_threads,
        match step(limits, state) {
            Some(next) => next.phase == Phase::Scanning,
            None => state.advance(limits).1 is Nothing,
        },
    ensures
        state.batches[thread].ids.len() == 0,
{
    lemma_step(limits, state);
}

} // verus!
