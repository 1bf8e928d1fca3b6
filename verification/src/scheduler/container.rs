//! The buffer of transactions and the priority queue over it.
use super::transaction::{MaxAge, RuntimeTransaction, TransactionPriorityId, TransactionState};
use vstd::prelude::*;

verus! {

/// The entries stand in the order in which they leave the queue, without
/// repetition.
pub open spec fn in_pop_order(queue: Seq<TransactionPriorityId>) -> bool {
    forall|i: int, j: int|
        0 <= i < j < queue.len() ==> !super::transaction::ranks_no_higher(
            #[trigger] queue[i],
            #[trigger] queue[j],
        )
}

/// `queue` holds just the given entries, in the order in which they leave it.
pub open spec fn lists(
    queue: Seq<TransactionPriorityId>,
    entries: Set<TransactionPriorityId>,
) -> bool {
    in_pop_order(queue) && queue.to_set() == entries
}

/// The queue after `ids` have been put into it. An entry that is there already
/// is not repeated.
pub open spec fn enqueued(
    queue: Seq<TransactionPriorityId>,
    ids: Seq<TransactionPriorityId>,
) -> Seq<TransactionPriorityId> {
    choose|merged: Seq<TransactionPriorityId>| lists(merged, queue.to_set().union(ids.to_set()))
}

/// The entries of a queue determine the order in which they leave it.
pub proof fn pop_order_is_unique(
    a: Seq<TransactionPriorityId>,
    b: Seq<TransactionPriorityId>,
)
    requires
        in_pop_order(a),
        in_pop_order(b),
        a.to_set() == b.to_set(),
    ensures
        a == b,
    decreases a.len(),
{
    if a.len() == 0 {
        if b.len() > 0 {
            assert(b.to_set().contains(b[0]));
            assert(a.to_set().contains(b[0]));
        }
        assert(a =~= b);
    } else {
        assert(a.to_set().contains(a[0]));
        assert(b.to_set().contains(a[0]));
        let k = choose|k: int| 0 <= k < b.len() && b[k] == a[0];
        assert(b.to_set().contains(b[0]));
        assert(a.to_set().contains(b[0]));
        let m = choose|m: int| 0 <= m < a.len() && a[m] == b[0];
        assert(a[0] == b[0]);
        let rest_a = a.drop_first();
        let rest_b = b.drop_first();
        assert(in_pop_order(rest_a));
        assert(in_pop_order(rest_b));
        assert forall|x: TransactionPriorityId| rest_a.to_set().contains(x) implies rest_b.to_set().contains(x) by {
            let i = choose|i: int| 0 <= i < rest_a.len() && rest_a[i] == x;
            assert(a[i + 1] == x);
            assert(a.to_set().contains(x));
            assert(b.to_set().contains(x));
            let j = choose|j: int| 0 <= j < b.len() && b[j] == x;
            assert(j != 0);
            assert(rest_b[j - 1] == x);
        }
        assert forall|x: TransactionPriorityId| rest_b.to_set().contains(x) implies rest_a.to_set().contains(x) by {
            let i = choose|i: int| 0 <= i < rest_b.len() && rest_b[i] == x;
            assert(b[i + 1] == x);
            assert(b.to_set().contains(x));
            assert(a.to_set().contains(x));
            let j = choose|j: int| 0 <= j < a.len() && a[j] == x;
            assert(j != 0);
            assert(rest_a[j - 1] == x);
        }
        assert(rest_a.to_set() =~= rest_b.to_set());
        pop_order_is_unique(rest_a, rest_b);
        assert(a =~= seq![a[0]] + rest_a);
        assert(b =~= seq![b[0]] + rest_b);
    }
}

/// A queue that lists the old and the new entries is the queue after the new
/// ones have been put in.
pub proof fn enqueued_is(
    queue: Seq<TransactionPriorityId>,
    ids: Seq<TransactionPriorityId>,
    merged: Seq<TransactionPriorityId>,
)
    requires
        lists(merged, queue.to_set().union(ids.to_set())),
    ensures
        enqueued(queue, ids) == merged,
{
    pop_order_is_unique(enqueued(queue, ids), merged);
}

/// A queue into which entries have been put lists the old and the new entries.
pub proof fn enqueued_holds(
    queue: Seq<TransactionPriorityId>,
    ids: Seq<TransactionPriorityId>,
)
    ensures
        lists(enqueued(queue, ids), queue.to_set().union(ids.to_set())),
{
    lemma_pop_order_exists(queue + ids);
    vstd::seq_lib::seq_to_set_distributes_over_add(queue, ids);
}

/// Putting entries into a queue keeps the old ones and adds the new ones, no more
/// and no less, and they leave it by descending priority, and by descending id
/// where priorities are equal.
pub proof fn enqueuing_adds_just_the_entries(
    queue: Seq<TransactionPriorityId>,
    ids: Seq<TransactionPriorityId>,
)
    ensures
        forall|entry: TransactionPriorityId| #[trigger]
            enqueued(queue, ids).contains(entry) <==> queue.contains(entry) || ids.contains(entry),
        forall|i: int, j: int|
            0 <= i < j < enqueued(queue, ids).len() ==> {
                ||| (#[trigger] enqueued(queue, ids)[i]).priority > (
                #[trigger] enqueued(queue, ids)[j]).priority
                ||| enqueued(queue, ids)[i].priority == enqueued(queue, ids)[j].priority
                    && enqueued(queue, ids)[i].id > enqueued(queue, ids)[j].id
            },
{
    enqueued_holds(queue, ids);
    let merged = enqueued(queue, ids);
    assert forall|entry: TransactionPriorityId| #[trigger] merged.contains(entry) <==> queue.contains(
        entry,
    ) || ids.contains(entry) by {
        assert(merged.contains(entry) <==> merged.to_set().contains(entry));
        assert(queue.contains(entry) <==> queue.to_set().contains(entry));
        assert(ids.contains(entry) <==> ids.to_set().contains(entry));
    }
}

/// Some queue lists just the given entries.
proof fn lemma_pop_order_exists(entries: Seq<TransactionPriorityId>)
    ensures
        exists|queue: Seq<TransactionPriorityId>| lists(queue, entries.to_set()),
    decreases entries.len(),
{
    if entries.len() == 0 {
        assert(lists(entries, entries.to_set()));
    } else {
        let rest = entries.drop_last();
        let entry = entries.last();
        lemma_pop_order_exists(rest);
        let queue = choose|queue: Seq<TransactionPriorityId>| lists(queue, rest.to_set());
        assert(entries =~= rest.push(entry));
        rest.lemma_push_to_set_commute(entry);
        if queue.contains(entry) {
            assert(rest.to_set().contains(entry));
            assert(entries.to_set() =~= rest.to_set());
            assert(lists(queue, entries.to_set()));
        } else {
            let at = insertion_point(queue, entry);
            lemma_insertion_point(queue, entry);
            let inserted = queue.insert(at, entry);
            assert forall|i: int, j: int| 0 <= i < j < inserted.len() implies !super::transaction::ranks_no_higher(
                #[trigger] inserted[i],
                #[trigger] inserted[j],
            ) by {
                let x = inserted[i];
                let y = inserted[j];
                if i < at {
                    assert(x == queue[i]);
                } else if i > at {
                    assert(x == queue[i - 1]);
                }
                if j < at {
                    assert(y == queue[j]);
                } else if j > at {
                    assert(y == queue[j - 1]);
                }
            }
            assert forall|x: TransactionPriorityId| inserted.to_set().contains(x) == entries.to_set().contains(x) by {
                if x == entry {
                    assert(inserted[at] == entry);
                } else if queue.contains(x) {
                    assert(queue.to_set().contains(x));
                    let i = queue.index_of(x);
                    assert(inserted[if i < at { i } else { i + 1 }] == x);
                } else {
                    assert(!queue.to_set().contains(x));
                    if inserted.contains(x) {
                        let i = inserted.index_of(x);
                        assert(queue[if i < at { i } else { i - 1 }] == x);
                    }
                }
            }
            assert(inserted.to_set() =~= entries.to_set());
            assert(lists(inserted, entries.to_set()));
        }
    }
}

/// Where an entry belongs in a queue.
spec fn insertion_point(queue: Seq<TransactionPriorityId>, entry: TransactionPriorityId) -> int
    decreases queue.len(),
{
    if queue.len() == 0 || super::transaction::ranks_no_higher(queue[0], entry) {
        0
    } else {
        1 + insertion_point(queue.drop_first(), entry)
    }
}

proof fn lemma_insertion_point(queue: Seq<TransactionPriorityId>, entry: TransactionPriorityId)
    requires
        in_pop_order(queue),
    ensures
        0 <= insertion_point(queue, entry) <= queue.len(),
        forall|i: int|
            0 <= i < insertion_point(queue, entry) ==> !super::transaction::ranks_no_higher(
                #[trigger] queue[i],
                entry,
            ),
        forall|i: int|
            insertion_point(queue, entry) <= i < queue.len() ==> super::transaction::ranks_no_higher(
                #[trigger] queue[i],
                entry,
            ),
    decreases queue.len(),
{
    if queue.len() > 0 && !super::transaction::ranks_no_higher(queue[0], entry) {
        let rest = queue.drop_first();
        lemma_insertion_point(rest, entry);
        assert forall|i: int|
            0 <= i < insertion_point(queue, entry) implies !super::transaction::ranks_no_higher(
            #[trigger] queue[i],
            entry,
        ) by {
            if i > 0 {
                assert(rest[i - 1] == queue[i]);
            }
        }
        assert forall|i: int|
            insertion_point(queue, entry) <= i < queue.len() implies super::transaction::ranks_no_higher(
            #[trigger] queue[i],
            entry,
        ) by {
            assert(rest[i - 1] == queue[i]);
        }
    }
}

/// A buffer of transactions with a priority queue over their ids.
pub trait StateContainer<Tx> {
    /// The queue, in the order in which its entries leave it.
    spec fn queue(&self) -> Seq<TransactionPriorityId>;

    /// The buffered transactions, by id.
    spec fn states(&self) -> Map<u64, TransactionState<Tx>>;

    spec fn wf(&self) -> bool;

    proof fn wf_facts(&self)
        requires
            self.wf(),
        ensures
            in_pop_order(self.queue()),
            self.queue().len() <= usize::MAX,
            forall|i: int, j: int|
                0 <= i < j < self.queue().len() ==> {
                    ||| (#[trigger] self.queue()[i]).priority > (#[trigger] self.queue()[j]).priority
                    ||| self.queue()[i].priority == self.queue()[j].priority && self.queue()[i].id
                        > self.queue()[j].id
                },
    ;

    /// Whether the queue is empty.
    fn is_empty(&self) -> (empty: bool)
        requires
            self.wf(),
        ensures
            empty == (self.queue().len() == 0),
    ;

    /// The number of entries in the queue.
    fn queue_size(&self) -> (size: usize)
        requires
            self.wf(),
        ensures
            size == self.queue().len(),
    ;

    /// The number of buffered transactions.
    fn buffer_size(&self) -> (size: usize)
        requires
            self.wf(),
        ensures
            size == self.states().len(),
    ;

    /// Takes the entry that ranks highest out of the queue.
    fn pop(&mut self) -> (popped: Option<TransactionPriorityId>)
        requires
            old(self).wf(),
        ensures
            final(self).wf(),
            final(self).states() == old(self).states(),
            match popped {
                None => old(self).queue().len() == 0 && final(self).queue() == old(self).queue(),
                Some(id) => {
                    &&& old(self).queue().len() > 0
                    &&& id == old(self).queue()[0]
                    &&& final(self).queue() == old(self).queue().drop_first()
                },
            },
            popped matches Some(id) ==> forall|i: int|
                0 <= i < old(self).queue().len() ==> {
                    ||| (#[trigger] old(self).queue()[i]).priority < id.priority
                    ||| old(self).queue()[i].priority == id.priority && old(self).queue()[i].id
                        <= id.id
                },
    ;

    /// The state of a buffered transaction.
    fn get_mut_transaction_state(&mut self, id: u64) -> (state: Option<&mut TransactionState<Tx>>)
        requires
            old(self).wf(),
        ensures
            final(self).wf(),
            final(self).queue() == old(self).queue(),
            match state {
                None => {
                    &&& !old(self).states().dom().contains(id)
                    &&& final(self).states() == old(self).states()
                },
                Some(state) => {
                    &&& old(self).states().dom().contains(id)
                    &&& *state == old(self).states()[id]
                    &&& final(self).states() == old(self).states().insert(id, *final(state))
                },
            },
    ;

    /// Puts entries into the queue.
    fn push_ids_into_queue(&mut self, ids: Vec<TransactionPriorityId>)
        requires
            old(self).wf(),
            old(self).queue().len() + ids@.len() <= usize::MAX,
        ensures
            final(self).wf(),
            final(self).states() == old(self).states(),
            final(self).queue() == enqueued(old(self).queue(), ids@),
            forall|entry: TransactionPriorityId| #[trigger]
                final(self).queue().contains(entry) <==> old(self).queue().contains(entry)
                    || ids@.contains(entry),
            forall|i: int, j: int|
                0 <= i < j < final(self).queue().len() ==> {
                    ||| (#[trigger] final(self).queue()[i]).priority > (
                    #[trigger] final(self).queue()[j]).priority
                    ||| final(self).queue()[i].priority == final(self).queue()[j].priority
                        && final(self).queue()[i].id > final(self).queue()[j].id
                },
    ;
}

/// Sorts the entries, lowest rank first, and drops repetitions.
fn sort_and_dedup(entries: &Vec<TransactionPriorityId>) -> (ranked: Vec<TransactionPriorityId>)
    ensures
        in_pop_order(ranked@.reverse()),
        ranked@.to_set() == entries@.to_set(),
        ranked@.len() <= entries@.len(),
{
    let sorted = crate::sorting::sort(entries.as_slice());
    let ghost leq = |a: TransactionPriorityId, b: TransactionPriorityId|
        <TransactionPriorityId as crate::sorting::Ranked>::key_le(a, b);
    proof {
        assert(crate::sorting::keys(sorted@) =~= sorted@);
        assert(crate::sorting::keys(entries@) =~= entries@);
        <TransactionPriorityId as crate::sorting::Ranked>::key_le_is_total_order();
        entries@.lemma_sort_by_ensures(leq);
        assert(sorted@ == entries@.sort_by(leq));
        vstd::seq_lib::to_multiset_len(sorted@);
        vstd::seq_lib::to_multiset_len(entries@);
        lemma_same_items_same_set(sorted@, entries@);
    }
    let mut ranked: Vec<TransactionPriorityId> = Vec::new();
    let mut i: usize = 0;
    while i < sorted.len()
        invariant
            i <= sorted@.len(),
            ranked@.len() <= i,
            leq == (|a: TransactionPriorityId, b: TransactionPriorityId|
                <TransactionPriorityId as crate::sorting::Ranked>::key_le(a, b)),
            vstd::relations::sorted_by(sorted@, leq),
            forall|j: int, k: int|
                0 <= j < k < ranked@.len() ==> !super::transaction::ranks_no_higher(
                    #[trigger] ranked@[k],
                    #[trigger] ranked@[j],
                ),
            i > 0 ==> ranked@.len() > 0 && ranked@.last() == sorted@[i - 1],
            forall|j: int| 0 <= j < i ==> ranked@.contains(#[trigger] sorted@[j]),
            forall|k: int| 0 <= k < ranked@.len() ==> sorted@.contains(#[trigger] ranked@[k]),
        decreases sorted@.len() - i,
    {
        let entry = sorted[i];
        let ghost before = ranked@;
        let repeated: bool = ranked.len() > 0 && ranked[ranked.len() - 1] == entry;
        if !repeated {
            proof {
                if before.len() > 0 {
                    assert(leq(sorted@[i - 1], sorted@[i as int]));
                    assert forall|j: int| 0 <= j < before.len() implies !super::transaction::ranks_no_higher(
                        entry,
                        #[trigger] before[j],
                    ) by {
                        assert(before[before.len() - 1] == sorted@[i - 1]);
                    }
                }
            }
            ranked.push(entry);
        }
        proof {
            assert forall|j: int| 0 <= j < i + 1 implies ranked@.contains(#[trigger] sorted@[j]) by {
                if j < i {
                    let k = before.index_of(sorted@[j]);
                    assert(ranked@[k] == sorted@[j]);
                } else {
                    assert(ranked@[ranked@.len() - 1] == entry);
                }
            }
            assert(sorted@.contains(entry));
        }
        i += 1;
    }
    proof {
        assert forall|x: TransactionPriorityId| sorted@.to_set().contains(x) implies ranked@.to_set().contains(x) by {
            let j = choose|j: int| 0 <= j < sorted@.len() && sorted@[j] == x;
            assert(ranked@.contains(sorted@[j]));
        }
        assert forall|x: TransactionPriorityId| ranked@.to_set().contains(x) implies sorted@.to_set().contains(x) by {
            let k = choose|k: int| 0 <= k < ranked@.len() && ranked@[k] == x;
            assert(sorted@.contains(ranked@[k]));
        }
        assert(ranked@.to_set() =~= sorted@.to_set());
    }
    ranked
}

/// Sequences with the same items, counted, have the same items.
proof fn lemma_same_items_same_set(a: Seq<TransactionPriorityId>, b: Seq<TransactionPriorityId>)
    requires
        a.to_multiset() == b.to_multiset(),
    ensures
        a.to_set() == b.to_set(),
{
    broadcast use vstd::seq_lib::group_to_multiset_ensures;

    assert forall|x: TransactionPriorityId| a.to_set().contains(x) == b.to_set().contains(x) by {
        assert(a.contains(x) <==> a.to_multiset().count(x) > 0);
        assert(b.contains(x) <==> b.to_multiset().count(x) > 0);
    }
    assert(a.to_set() =~= b.to_set());
}

/// A container that keeps the queue sorted and finds transactions by index.
#[derive(Debug)]
pub struct TransactionStateContainer<Tx> {
    /// The queue; the entry that ranks highest stands last.
    queue: Vec<TransactionPriorityId>,
    /// The transaction with id `i` stands at index `i`.
    slots: Vec<TransactionState<Tx>>,
}

/// The buffered transactions, by id.
spec fn slot_map<Tx>(slots: Seq<TransactionState<Tx>>) -> Map<u64, TransactionState<Tx>> {
    Map::new(|id: u64| id < slots.len(), |id: u64| slots[id as int])
}

proof fn lemma_slot_map_len<Tx>(slots: Seq<TransactionState<Tx>>)
    requires
        slots.len() <= u64::MAX,
    ensures
        slot_map(slots).dom().finite(),
        slot_map(slots).len() == slots.len(),
    decreases slots.len(),
{
    if slots.len() == 0 {
        assert(slot_map(slots).dom() =~= Set::<u64>::empty());
    } else {
        let last: u64 = (slots.len() - 1) as u64;
        lemma_slot_map_len(slots.drop_last());
        assert(slot_map(slots).dom() =~= slot_map(slots.drop_last()).dom().insert(last));
    }
}

impl<Tx> TransactionStateContainer<Tx> {
    /// An empty container.
    pub fn new() -> (container: Self)
        ensures
            container.wf(),
            container.queue() == Seq::<TransactionPriorityId>::empty(),
            container.states() == Map::<u64, TransactionState<Tx>>::empty(),
    {
        let container = TransactionStateContainer { queue: Vec::new(), slots: Vec::new() };
        assert(container.queue() =~= Seq::<TransactionPriorityId>::empty());
        assert(container.states() =~= Map::<u64, TransactionState<Tx>>::empty());
        container
    }

    /// Buffers a transaction and puts it into the queue.
    pub fn insert_new_transaction(
        &mut self,
        transaction: RuntimeTransaction<Tx>,
        max_age: MaxAge,
        priority: u64,
        cost: u64,
    ) -> (id: u64)
        requires
            old(self).wf(),
            old(self).queue().len() < usize::MAX,
            old(self).states().len() < usize::MAX,
        ensures
            final(self).wf(),
            !old(self).states().dom().contains(id),
            final(self).states() == old(self).states().insert(
                id,
                TransactionState { transaction: Some(transaction), max_age, cost },
            ),
            final(self).queue() == enqueued(
                old(self).queue(),
                seq![TransactionPriorityId { priority, id }],
            ),
            forall|entry: TransactionPriorityId| #[trigger]
                final(self).queue().contains(entry) <==> old(self).queue().contains(entry) || entry
                    == (TransactionPriorityId { priority, id }),
    {
        let id: u64 = self.slots.len() as u64;
        proof {
            lemma_slot_map_len(self.slots@);
        }
        self.slots.push(TransactionState { transaction: Some(transaction), max_age, cost });
        proof {
            assert(self.states() =~= old(self).states().insert(
                id,
                TransactionState { transaction: Some(transaction), max_age, cost },
            ));
        }
        let mut ids: Vec<TransactionPriorityId> = Vec::new();
        ids.push(TransactionPriorityId { priority, id });
        assert(ids@ =~= seq![TransactionPriorityId { priority, id }]);
        let ghost pushed = ids@;
        self.push_ids_into_queue(ids);
        proof {
            assert forall|entry: TransactionPriorityId| #[trigger] pushed.contains(entry) <==> entry
                == (TransactionPriorityId { priority, id }) by {
                assert(pushed[0] == TransactionPriorityId { priority, id });
            }
        }
        id
    }
}

impl<Tx> StateContainer<Tx> for TransactionStateContainer<Tx> {
    closed spec fn queue(&self) -> Seq<TransactionPriorityId> {
        self.queue@.reverse()
    }

    closed spec fn states(&self) -> Map<u64, TransactionState<Tx>> {
        slot_map(self.slots@)
    }

    closed spec fn wf(&self) -> bool {
        &&& in_pop_order(self.queue@.reverse())
        &&& self.queue@.len() <= usize::MAX
        &&& self.slots@.len() <= usize::MAX
    }

    proof fn wf_facts(&self) {
    }

    fn is_empty(&self) -> (empty: bool) {
        self.queue.len() == 0
    }

    fn queue_size(&self) -> (size: usize) {
        self.queue.len()
    }

    fn buffer_size(&self) -> (size: usize) {
        proof {
            lemma_slot_map_len(self.slots@);
        }
        self.slots.len()
    }

    fn pop(&mut self) -> (popped: Option<TransactionPriorityId>) {
        let popped = self.queue.pop();
        proof {
            if popped is Some {
                assert(self.queue() =~= old(self).queue().drop_first());
                let queue = old(self).queue();
                assert forall|i: int| 0 <= i < queue.len() implies {
                    ||| (#[trigger] queue[i]).priority < queue[0].priority
                    ||| queue[i].priority == queue[0].priority && queue[i].id <= queue[0].id
                } by {
                    if i > 0 {
                        assert(!super::transaction::ranks_no_higher(queue[0], queue[i]));
                    }
                }
            }
        }
        popped
    }

    fn get_mut_transaction_state(&mut self, id: u64) -> (state: Option<&mut TransactionState<Tx>>) {
        if id < self.slots.len() as u64 {
            let i: usize = id as usize;
            proof {
                assert forall|state: TransactionState<Tx>| slot_map(
                    #[trigger] self.slots@.update(i as int, state),
                ) == slot_map(self.slots@).insert(id, state) by {
                    assert(slot_map(self.slots@.update(i as int, state)) =~= slot_map(
                        self.slots@,
                    ).insert(id, state));
                }
            }
            Some(&mut self.slots[i])
        } else {
            None
        }
    }

    fn push_ids_into_queue(&mut self, ids: Vec<TransactionPriorityId>) {
        let ghost queue = self.queue();
        let ghost pushed = ids@;
        let mut ids = ids;
        let ghost kept = self.queue@;
        self.queue.append(&mut ids);
        let ranked = sort_and_dedup(&self.queue);
        proof {
            assert(ranked@.reverse().to_set() =~= queue.to_set().union(pushed.to_set())) by {
                lemma_reverse_same_set(ranked@);
                lemma_reverse_same_set(kept);
                assert(self.queue@ == kept + pushed);
                vstd::seq_lib::seq_to_set_distributes_over_add(kept, pushed);
            }
            enqueued_is(queue, pushed, ranked@.reverse());
            enqueuing_adds_just_the_entries(queue, pushed);
        }
        self.queue = ranked;
    }
}

proof fn lemma_reverse_same_set(entries: Seq<TransactionPriorityId>)
    ensures
        entries.reverse().to_set() == entries.to_set(),
{
    assert forall|x: TransactionPriorityId| entries.to_set().contains(x) implies entries.reverse().to_set().contains(x) by {
        let i = choose|i: int| 0 <= i < entries.len() && entries[i] == x;
        assert(entries.reverse()[entries.len() - 1 - i] == x);
    }
    assert forall|x: TransactionPriorityId| entries.reverse().to_set().contains(x) implies entries.to_set().contains(x) by {
        let i = choose|i: int| 0 <= i < entries.len() && entries.reverse()[i] == x;
        assert(entries[entries.len() - 1 - i] == x);
    }
    assert(entries.reverse().to_set() =~= entries.to_set());
}

} // verus!
