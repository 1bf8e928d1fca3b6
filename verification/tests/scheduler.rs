use agave_scheduling_utils::thread_aware_account_locks::{ThreadAwareAccountLocks, ThreadSet};
use ooze_ordering::scheduler::common::{select_thread, Batch, SchedulingCommon};
use ooze_ordering::scheduler::container::{StateContainer, TransactionStateContainer};
use ooze_ordering::scheduler::ooze_scheduler::{
    rewrite_priorities, try_schedule_transaction, PassEvent, PassStart, SchedulerError,
    SchedulingStep, SchedulingSummary, TransactionSchedulingError,
};
use ooze_ordering::scheduler::transaction::{
    MaxAge, RuntimeTransaction, TransactionPriorityId, TransactionState,
};
use ooze_ordering::{OozeScheduler, OozeSchedulerConfig};
use solana_keypair::Keypair;
use solana_pubkey::Pubkey;
use std::sync::Arc;

const MAX_AGE: MaxAge = MaxAge {
    sanitized_epoch: 3,
    alt_invalidation_slot: 9,
};

/// A transaction over accounts that are named by one byte each.
fn transaction(accounts: &[(u8, bool)], inner: u64) -> RuntimeTransaction<u64> {
    RuntimeTransaction {
        account_keys: accounts.iter().map(|(key, _)| [*key; 32]).collect(),
        writable: accounts.iter().map(|(_, writable)| *writable).collect(),
        serialized_size: 100 + inner,
        inner,
    }
}

fn state(accounts: &[(u8, bool)]) -> TransactionState<u64> {
    TransactionState {
        transaction: Some(transaction(accounts, 77)),
        max_age: MAX_AGE,
        cost: 10,
    }
}

/// A container with transactions of cost 10, where later ones have higher
/// priorities.
fn container(accounts: &[&[(u8, bool)]]) -> TransactionStateContainer<u64> {
    let mut container = TransactionStateContainer::new();
    for (i, accounts) in accounts.iter().enumerate() {
        let id = container.insert_new_transaction(
            transaction(accounts, i as u64),
            MAX_AGE,
            i as u64 + 1,
            10,
        );
        assert_eq!(id, i as u64);
    }
    container
}

fn config() -> OozeSchedulerConfig {
    OozeSchedulerConfig {
        target_scheduled_cus: 1_000,
        max_scanned_transactions_per_scheduling_pass: 100,
        target_transactions_per_batch: 64,
    }
}

fn scheduler(num_threads: usize, config: OozeSchedulerConfig) -> OozeScheduler<u64> {
    OozeScheduler::new(
        num_threads,
        config,
        Arc::new(Keypair::new_from_array([1u8; 32])),
    )
}

/// Runs a pass, with every send succeeding: what each thread was sent, and the
/// summary.
fn run(
    scheduler: &mut OozeScheduler<u64>,
    container: &mut TransactionStateContainer<u64>,
    budget: u64,
) -> (Vec<(usize, Vec<u64>)>, SchedulingSummary) {
    let mut sent = Vec::new();
    let mut pass = match scheduler.schedule(container, budget) {
        PassStart::Idle(summary) => return (sent, summary),
        PassStart::Started(pass) => pass,
    };
    loop {
        match scheduler.resume(container, &mut pass, PassEvent::Continue) {
            SchedulingStep::Send { thread_id, work } => {
                assert_eq!(work.transactions.len(), work.ids.len());
                assert_eq!(work.max_ages, vec![MAX_AGE; work.ids.len()]);
                for (id, transaction) in work.ids.iter().zip(&work.transactions) {
                    assert_eq!(*id, transaction.inner);
                }
                sent.push((thread_id, work.ids));
            }
            SchedulingStep::Done(summary) => return (sent, summary),
            SchedulingStep::Failed(error) => panic!("{:?}", error),
        }
    }
}

fn drain(container: &mut TransactionStateContainer<u64>) -> Vec<(u64, u64)> {
    let mut entries = Vec::new();
    while let Some(entry) = container.pop() {
        entries.push((entry.priority, entry.id));
    }
    entries
}

const DISJOINT: [&[(u8, bool)]; 5] = [
    &[(1, true)],
    &[(2, true)],
    &[(3, true)],
    &[(4, true)],
    &[(5, true)],
];

#[test]
fn default_config_takes_a_quarter_block() {
    let config = OozeSchedulerConfig::default();
    assert_eq!(config.target_scheduled_cus, 15_000_000);
    assert_eq!(config.max_scanned_transactions_per_scheduling_pass, 100_000);
    assert_eq!(config.target_transactions_per_batch, 64);
}

#[test]
fn queue_pops_by_priority_and_then_id() {
    let mut container = TransactionStateContainer::<u64>::new();
    let entry = |priority: u64, id: u64| TransactionPriorityId { priority, id };
    container.push_ids_into_queue(vec![entry(1, 5), entry(2, 0), entry(1, 7)]);
    container.push_ids_into_queue(vec![entry(2, 0), entry(0, 9)]);
    assert_eq!(container.queue_size(), 4);
    assert_eq!(drain(&mut container), vec![(2, 0), (1, 7), (1, 5), (0, 9)]);
    assert!(container.is_empty());
    assert!(container.pop().is_none());
}

#[test]
fn container_finds_states_by_id() {
    let mut container = container(&[&[(1, true)]]);
    assert_eq!(container.buffer_size(), 1);
    assert_eq!(container.queue_size(), 1);
    assert!(container.get_mut_transaction_state(1).is_none());
    let state = container.get_mut_transaction_state(0).unwrap();
    assert!(state.has_transaction());
    assert_eq!(state.cost(), 10);
    let (taken, max_age) = state.take_transaction_for_scheduling();
    assert_eq!(taken.inner, 0);
    assert_eq!(max_age, MAX_AGE);
    assert!(!container.get_mut_transaction_state(0).unwrap().has_transaction());
}

#[test]
fn rewritten_priorities_descend_to_one() {
    let entry = |priority: u64, id: u64| TransactionPriorityId { priority, id };
    assert_eq!(
        rewrite_priorities(&vec![entry(50, 8), entry(60, 2), entry(5, 4)]),
        vec![entry(3, 8), entry(2, 2), entry(1, 4)]
    );
}

#[test]
fn shuffle_of_queue_has_known_orders() {
    let mut container = container(&DISJOINT);
    let mut scheduler = scheduler(1, config());
    scheduler.apply_ooze_ordering(&mut container);
    let first = drain(&mut container);
    assert_eq!(first, vec![(5, 0), (4, 1), (3, 3), (2, 4), (1, 2)]);
    container.push_ids_into_queue(
        first
            .iter()
            .map(|(priority, id)| TransactionPriorityId { priority: *priority, id: *id })
            .collect(),
    );
    scheduler.apply_ooze_ordering(&mut container);
    assert_eq!(
        drain(&mut container),
        vec![(5, 3), (4, 4), (3, 2), (2, 1), (1, 0)]
    );
}

#[test]
fn shuffle_ignores_how_high_priorities_are() {
    let mut container = TransactionStateContainer::new();
    for i in 0..5u64 {
        container.insert_new_transaction(
            transaction(DISJOINT[i as usize], i),
            MAX_AGE,
            1_000_000 * (i + 1),
            10,
        );
    }
    scheduler(1, config()).apply_ooze_ordering(&mut container);
    assert_eq!(
        drain(&mut container),
        vec![(5, 0), (4, 1), (3, 3), (2, 4), (1, 2)]
    );
}

#[test]
fn single_entry_is_not_shuffled() {
    let mut single = TransactionStateContainer::new();
    single.insert_new_transaction(transaction(&[(1, true)], 0), MAX_AGE, 42, 10);
    let mut scheduler = scheduler(1, config());
    scheduler.apply_ooze_ordering(&mut single);
    assert_eq!(drain(&mut single), vec![(42, 0)]);
    // The number of shuffles has not gone up: this is still the first.
    let mut five = container(&DISJOINT);
    scheduler.apply_ooze_ordering(&mut five);
    assert_eq!(
        drain(&mut five),
        vec![(5, 0), (4, 1), (3, 3), (2, 4), (1, 2)]
    );
}

#[test]
fn empty_queue_stays_empty() {
    let mut container = TransactionStateContainer::new();
    scheduler(1, config()).apply_ooze_ordering(&mut container);
    assert!(container.is_empty());
}

#[test]
fn taken_and_unknown_entries_leave_the_queue() {
    let mut container = container(&DISJOINT[..2]);
    container
        .get_mut_transaction_state(0)
        .unwrap()
        .take_transaction_for_scheduling();
    container.push_ids_into_queue(vec![TransactionPriorityId { priority: 9, id: 500 }]);
    assert_eq!(container.queue_size(), 3);
    scheduler(1, config()).apply_ooze_ordering(&mut container);
    assert_eq!(drain(&mut container), vec![(2, 1)]);
}

#[test]
fn pass_sends_everything_in_shuffled_order() {
    let mut container = container(&DISJOINT);
    let mut scheduler = scheduler(1, config());
    let (sent, summary) = run(&mut scheduler, &mut container, 1_000);
    assert_eq!(sent, vec![(0, vec![0, 1, 3, 4, 2])]);
    assert_eq!(
        summary,
        SchedulingSummary {
            starting_queue_size: 5,
            starting_buffer_size: 5,
            num_scheduled: 5,
            num_unschedulable_conflicts: 0,
            num_unschedulable_threads: 0,
        }
    );
    assert!(container.is_empty());
    let common = scheduler.scheduling_common_mut();
    assert_eq!(common.cus_in_flight_per_thread, vec![50]);
    assert_eq!(common.num_in_flight_per_thread, vec![5]);
    assert!(common.batches[0].ids.is_empty());
    assert_eq!(common.batches[0].total_cus, 0);
}

#[test]
fn sent_transactions_are_not_sent_again() {
    let mut container = container(&DISJOINT);
    let mut scheduler = scheduler(1, config());
    run(&mut scheduler, &mut container, 1_000);
    container.push_ids_into_queue(vec![TransactionPriorityId { priority: 1, id: 3 }]);
    let (sent, summary) = run(&mut scheduler, &mut container, 1_000);
    assert!(sent.is_empty());
    assert_eq!(summary.starting_queue_size, 0);
    assert_eq!(summary.starting_buffer_size, 5);
    assert_eq!(summary.num_scheduled, 0);
}

#[test]
fn full_batches_are_sent_at_once() {
    let mut container = container(&DISJOINT);
    let mut scheduler = scheduler(
        1,
        OozeSchedulerConfig {
            target_transactions_per_batch: 2,
            ..config()
        },
    );
    let (sent, summary) = run(&mut scheduler, &mut container, 1_000);
    assert_eq!(
        sent,
        vec![(0, vec![0, 1]), (0, vec![3, 4]), (0, vec![2])]
    );
    assert_eq!(summary.num_scheduled, 5);
}

#[test]
fn work_goes_to_the_least_loaded_thread() {
    let mut container = container(&DISJOINT);
    let mut scheduler = scheduler(2, config());
    let (sent, _) = run(&mut scheduler, &mut container, 1_000);
    assert_eq!(sent, vec![(0, vec![0, 3, 2]), (1, vec![1, 4])]);
    let common = scheduler.scheduling_common_mut();
    assert_eq!(common.cus_in_flight_per_thread, vec![30, 20]);
    assert_eq!(common.num_in_flight_per_thread, vec![3, 2]);
}

#[test]
fn conflicting_writers_share_a_thread() {
    let accounts: [&[(u8, bool)]; 3] = [&[(1, true)], &[(1, true)], &[(1, false)]];
    let mut container = container(&accounts);
    let mut scheduler = scheduler(2, config());
    let (sent, summary) = run(&mut scheduler, &mut container, 1_000);
    assert_eq!(sent, vec![(0, vec![1, 0, 2])]);
    assert_eq!(summary.num_scheduled, 3);
}

#[test]
fn writers_wait_for_a_saturated_thread() {
    let accounts: [&[(u8, bool)]; 3] = [&[(1, true)], &[(1, true)], &[(1, true)]];
    let mut container = container(&accounts);
    let mut scheduler = scheduler(
        2,
        OozeSchedulerConfig {
            target_scheduled_cus: 20,
            ..config()
        },
    );
    let (sent, summary) = run(&mut scheduler, &mut container, 1_000);
    assert_eq!(sent, vec![(0, vec![1])]);
    assert_eq!(summary.num_scheduled, 1);
    assert_eq!(summary.num_unschedulable_threads, 2);
    assert_eq!(summary.num_unschedulable_conflicts, 0);
    assert_eq!(drain(&mut container), vec![(2, 0), (1, 2)]);
}

#[test]
fn writer_of_an_account_read_on_two_threads_conflicts() {
    let mut container = container(&[&[(1, true)]]);
    let mut scheduler = scheduler(2, config());
    let account = Pubkey::new_from_array([1u8; 32]);
    for thread in 0..2 {
        let locked = scheduler
            .scheduling_common_mut()
            .account_locks
            .try_lock_accounts([].iter(), [account].iter(), ThreadSet::only(thread), |_| thread);
        assert_eq!(locked, Ok(thread));
    }
    let (sent, summary) = run(&mut scheduler, &mut container, 1_000);
    assert!(sent.is_empty());
    assert_eq!(summary.num_scheduled, 0);
    assert_eq!(summary.num_unschedulable_conflicts, 1);
    assert_eq!(summary.num_unschedulable_threads, 0);
    assert_eq!(drain(&mut container), vec![(1, 0)]);
}

#[test]
fn budget_limits_what_is_scheduled() {
    let mut zero = container(&DISJOINT);
    let (sent, summary) = run(&mut scheduler(1, config()), &mut zero, 0);
    assert!(sent.is_empty());
    assert_eq!(summary.num_scheduled, 0);
    assert_eq!(zero.queue_size(), 5);

    let mut eleven = container(&DISJOINT);
    let (sent, _) = run(&mut scheduler(1, config()), &mut eleven, 11);
    assert_eq!(sent, vec![(0, vec![0, 1])]);
    assert_eq!(eleven.queue_size(), 3);
}

#[test]
fn work_in_flight_counts_against_the_budget() {
    let mut container = container(&DISJOINT);
    let mut scheduler = scheduler(1, config());
    scheduler.scheduling_common_mut().cus_in_flight_per_thread[0] = 30;
    let (sent, _) = run(&mut scheduler, &mut container, 40);
    assert_eq!(sent, vec![(0, vec![0])]);
    let (sent, _) = run(&mut scheduler, &mut container, 40);
    assert!(sent.is_empty());
}

#[test]
fn scanning_stops_at_the_limit() {
    let mut container = container(&DISJOINT);
    let mut scheduler = scheduler(
        1,
        OozeSchedulerConfig {
            max_scanned_transactions_per_scheduling_pass: 2,
            ..config()
        },
    );
    let (sent, summary) = run(&mut scheduler, &mut container, 1_000);
    assert_eq!(sent, vec![(0, vec![0, 1])]);
    assert_eq!(summary.num_scheduled, 2);
    assert_eq!(container.queue_size(), 3);
}

#[test]
fn saturated_threads_leave_the_scheduler_idle() {
    let mut container = container(&DISJOINT);
    let mut scheduler = scheduler(2, config());
    scheduler.scheduling_common_mut().cus_in_flight_per_thread = vec![500, 501];
    match scheduler.schedule(&mut container, 5_000) {
        PassStart::Idle(summary) => assert_eq!(
            summary,
            SchedulingSummary {
                starting_queue_size: 5,
                starting_buffer_size: 5,
                num_scheduled: 0,
                num_unschedulable_conflicts: 0,
                num_unschedulable_threads: 0,
            }
        ),
        PassStart::Started(_) => unreachable!(),
    }
    // The queue has been shuffled all the same.
    assert_eq!(
        drain(&mut container),
        vec![(5, 0), (4, 1), (3, 3), (2, 4), (1, 2)]
    );
}

#[test]
fn saturated_thread_gets_nothing() {
    let mut container = container(&DISJOINT);
    let mut scheduler = scheduler(2, config());
    scheduler.scheduling_common_mut().cus_in_flight_per_thread = vec![500, 0];
    let (sent, _) = run(&mut scheduler, &mut container, 5_000);
    assert_eq!(sent, vec![(1, vec![0, 1, 3, 4, 2])]);
}

#[test]
fn failed_send_ends_the_pass() {
    let mut container = container(&DISJOINT);
    let mut scheduler = scheduler(1, config());
    let mut pass = match scheduler.schedule(&mut container, 1_000) {
        PassStart::Started(pass) => pass,
        PassStart::Idle(_) => unreachable!(),
    };
    assert!(matches!(
        scheduler.resume(&mut container, &mut pass, PassEvent::Continue),
        SchedulingStep::Send { thread_id: 0, .. }
    ));
    assert!(matches!(
        scheduler.resume(&mut container, &mut pass, PassEvent::SendFailed),
        SchedulingStep::Failed(SchedulerError::DisconnectedSendChannel)
    ));
}

#[test]
fn scheduled_transaction_is_taken_and_locked() {
    let mut locks = ThreadAwareAccountLocks::new(2);
    let mut first = state(&[(1, true), (2, false)]);
    let info =
        try_schedule_transaction(&mut first, &mut locks, ThreadSet::any(2), |_| 1).unwrap();
    assert_eq!(info.thread_id, 1);
    assert_eq!(info.transaction.inner, 77);
    assert_eq!(info.max_age, MAX_AGE);
    assert_eq!(info.cost, 10);
    assert!(!first.has_transaction());
    // The account that is read may be read elsewhere, but not written.
    let mut reader = state(&[(2, false)]);
    assert_eq!(
        try_schedule_transaction(&mut reader, &mut locks, ThreadSet::only(0), |_| 0)
            .unwrap()
            .thread_id,
        0
    );
    let mut writer = state(&[(2, true)]);
    assert_eq!(
        try_schedule_transaction(&mut writer, &mut locks, ThreadSet::any(2), |_| 0).unwrap_err(),
        TransactionSchedulingError::UnschedulableConflicts
    );
    assert!(writer.has_transaction());
    // The account that is written may be used on the same thread only.
    let mut other = state(&[(1, false)]);
    assert_eq!(
        try_schedule_transaction(&mut other, &mut locks, ThreadSet::only(0), |_| 0).unwrap_err(),
        TransactionSchedulingError::UnschedulableThread
    );
    assert!(other.has_transaction());
    assert_eq!(
        try_schedule_transaction(&mut other, &mut locks, ThreadSet::any(2), |set| {
            assert!(set.contains(1) && !set.contains(0));
            1
        })
        .unwrap()
        .thread_id,
        1
    );
}

#[test]
fn taken_transaction_conflicts() {
    let mut locks = ThreadAwareAccountLocks::new(2);
    let mut gone = state(&[(1, true)]);
    gone.take_transaction_for_scheduling();
    assert_eq!(
        try_schedule_transaction(&mut gone, &mut locks, ThreadSet::any(2), |_| 0).unwrap_err(),
        TransactionSchedulingError::UnschedulableConflicts
    );
}

#[test]
fn thread_selection_breaks_ties_by_count_and_number() {
    let mut batches: Vec<Batch<u64>> = vec![Batch::new(), Batch::new(), Batch::new()];
    let all = ThreadSet::any(3);
    assert_eq!(select_thread(all, &batches, &vec![5, 5, 5], &vec![1, 1, 1]), 0);
    assert_eq!(select_thread(all, &batches, &vec![5, 5, 5], &vec![2, 2, 1]), 2);
    assert_eq!(select_thread(all, &batches, &vec![5, 4, 5], &vec![1, 9, 1]), 1);
    assert_eq!(
        select_thread(ThreadSet::only(2), &batches, &vec![0, 0, 9], &vec![0, 0, 9]),
        2
    );
    batches[0].push(1, transaction(&[], 1), MAX_AGE, 6);
    assert_eq!(select_thread(all, &batches, &vec![0, 5, 7], &vec![0, 0, 0]), 1);
    assert_eq!(batches[0].transaction_bytes, vec![101]);
}

#[test]
fn in_flight_total_is_the_sum() {
    let mut common = SchedulingCommon::<u64>::new(3);
    assert_eq!(common.total_cus_in_flight(), 0);
    common.cus_in_flight_per_thread = vec![1, 20, 300];
    assert_eq!(common.total_cus_in_flight(), 321);
}

#[test]
fn scheduler_takes_as_many_threads_as_a_set_holds() {
    let mut container = container(&DISJOINT);
    let mut scheduler = scheduler(
        64,
        OozeSchedulerConfig {
            target_scheduled_cus: 64_000,
            ..config()
        },
    );
    let (sent, summary) = run(&mut scheduler, &mut container, 10_000);
    assert_eq!(
        sent,
        vec![(0, vec![0]), (1, vec![1]), (2, vec![3]), (3, vec![4]), (4, vec![2])]
    );
    assert_eq!(summary.num_scheduled, 5);
}

#[test]
fn each_thread_gets_its_work_in_queue_order() {
    let mut container = container(&DISJOINT);
    let mut scheduler = scheduler(
        2,
        OozeSchedulerConfig {
            target_transactions_per_batch: 2,
            ..config()
        },
    );
    let (sent, _) = run(&mut scheduler, &mut container, 1_000);
    let to = |thread: usize| -> Vec<u64> {
        sent.iter()
            .filter(|(to, _)| *to == thread)
            .flat_map(|(_, ids)| ids.clone())
            .collect()
    };
    assert_eq!(to(0), vec![0, 3, 2]);
    assert_eq!(to(1), vec![1, 4]);
}

#[test]
fn each_key_is_locked_once() {
    let mut locks = ThreadAwareAccountLocks::new(2);
    let written = [Pubkey::new_from_array([1u8; 32]), Pubkey::new_from_array([3u8; 32])];
    let read = [Pubkey::new_from_array([2u8; 32])];
    let mut first = state(&[(1, true), (2, false), (3, true)]);
    try_schedule_transaction(&mut first, &mut locks, ThreadSet::any(2), |_| 0).unwrap();
    // One unlock for each key releases everything: the other thread may write.
    locks.unlock_accounts(written.iter(), read.iter(), 0);
    let mut second = state(&[(1, true), (2, true), (3, true)]);
    assert_eq!(
        try_schedule_transaction(&mut second, &mut locks, ThreadSet::only(1), |_| 1)
            .unwrap()
            .thread_id,
        1
    );
}

#[test]
fn repeated_key_is_locked_as_often() {
    let mut locks = ThreadAwareAccountLocks::new(2);
    let account = [Pubkey::new_from_array([1u8; 32])];
    let mut twice = state(&[(1, true), (1, true)]);
    try_schedule_transaction(&mut twice, &mut locks, ThreadSet::any(2), |_| 0).unwrap();
    locks.unlock_accounts(account.iter(), [].iter(), 0);
    let mut other = state(&[(1, true)]);
    assert_eq!(
        try_schedule_transaction(&mut other, &mut locks, ThreadSet::only(1), |_| 1).unwrap_err(),
        TransactionSchedulingError::UnschedulableThread
    );
    locks.unlock_accounts(account.iter(), [].iter(), 0);
    assert!(
        try_schedule_transaction(&mut other, &mut locks, ThreadSet::only(1), |_| 1).is_ok()
    );
}

#[test]
fn locked_keys_are_in_order() {
    let transaction = transaction(&[(4, true), (2, false), (9, true), (1, false), (4, true)], 0);
    assert_eq!(
        transaction.locked_keys(true),
        vec![[4u8; 32], [9u8; 32], [4u8; 32]]
    );
    assert_eq!(transaction.locked_keys(false), vec![[2u8; 32], [1u8; 32]]);
    let mut short = state(&[(5, true), (6, true)]).transaction.unwrap();
    short.writable.pop();
    assert!(short.is_writable(0));
    assert!(!short.is_writable(1));
    assert_eq!(short.locked_keys(false), vec![[6u8; 32]]);
}

#[test]
fn scheduled_transaction_is_handed_out_once() {
    let mut locks = ThreadAwareAccountLocks::new(2);
    let account = [Pubkey::new_from_array([1u8; 32])];
    let mut once = state(&[(1, true)]);
    try_schedule_transaction(&mut once, &mut locks, ThreadSet::any(2), |_| 0).unwrap();
    assert_eq!(
        try_schedule_transaction(&mut once, &mut locks, ThreadSet::any(2), |_| unreachable!())
            .unwrap_err(),
        TransactionSchedulingError::UnschedulableConflicts
    );
    // The second attempt has locked nothing: one unlock releases the account.
    locks.unlock_accounts(account.iter(), [].iter(), 0);
    let mut other = state(&[(1, true)]);
    assert!(
        try_schedule_transaction(&mut other, &mut locks, ThreadSet::only(1), |_| 1).is_ok()
    );
}

#[test]
fn pass_accounts_for_every_entry() {
    let accounts: [&[(u8, bool)]; 5] = [
        &[(1, true)],
        &[(1, true)],
        &[(2, true)],
        &[(1, true)],
        &[(3, true)],
    ];
    let mut container = container(&accounts);
    let mut scheduler = scheduler(
        2,
        OozeSchedulerConfig {
            target_scheduled_cus: 40,
            ..config()
        },
    );
    // The reshuffled queue is 0, 1, 3, 4, 2 with priorities from five down.
    let (sent, summary) = run(&mut scheduler, &mut container, 1_000);
    assert_eq!(sent, vec![(0, vec![0, 1]), (1, vec![4, 2])]);
    assert_eq!(summary.num_unschedulable_threads, 1);
    assert_eq!(container.queue_size() + summary.num_scheduled, summary.starting_queue_size);
    assert_eq!(container.buffer_size(), summary.starting_buffer_size);
    assert_eq!(drain(&mut container), vec![(3, 3)]);
}

#[test]
fn conflicts_stay_on_the_thread_across_passes() {
    let accounts: [&[(u8, bool)]; 2] = [&[(1, true)], &[(2, true)]];
    let mut container = container(&accounts);
    let mut scheduler = scheduler(2, config());
    let (sent, _) = run(&mut scheduler, &mut container, 1_000);
    let on = |id: u64| sent.iter().find(|(_, ids)| ids.contains(&id)).unwrap().0;
    let (first, second) = (on(0), on(1));
    assert_ne!(first, second);
    for (account, thread) in [(1u8, first), (2u8, second)] {
        let id = container.insert_new_transaction(
            transaction(&[(account, false)], container.buffer_size() as u64),
            MAX_AGE,
            1,
            10,
        );
        let (sent, _) = run(&mut scheduler, &mut container, 1_000);
        assert_eq!(sent, vec![(thread, vec![id])]);
    }
}

#[test]
fn costly_transactions_outside_the_queue_do_not_matter() {
    let mut container = container(&[&[(1, true)]]);
    container.insert_new_transaction(transaction(&[(2, true)], 1), MAX_AGE, 9, u64::MAX);
    assert_eq!(container.pop(), Some(TransactionPriorityId { priority: 9, id: 1 }));
    let (sent, _) = run(&mut scheduler(1, config()), &mut container, 1_000);
    assert_eq!(sent, vec![(0, vec![0])]);
}

#[test]
fn shuffles_are_counted() {
    let mut two = container(&DISJOINT[..2]);
    let mut one = container(&DISJOINT[..1]);
    let mut scheduler = scheduler(1, config());
    assert_eq!(scheduler.num_shuffles(), 0);
    scheduler.apply_ooze_ordering(&mut one);
    assert_eq!(scheduler.num_shuffles(), 0);
    scheduler.apply_ooze_ordering(&mut two);
    assert_eq!(scheduler.num_shuffles(), 1);
}
