# ooze_ordering

Fair transaction ordering for a validator. Within a batch, transactions are put in
the order of a shuffle that is seeded by a verifiable random function (VRF) of the
validator's identity key, the slot, and the transactions themselves. Priority fees
are carried along and never looked at. Anyone can check a published ordering.

The library in `src/` is verified with Verus.

- `vrf`: the VRF (a signature as proof, its SHA-256 digest as randomness) and the
  order-independent commit over a set of byte strings.
- `ordering`: ordering a batch, and verifying a published ordering.
- `scheduler::ooze_scheduler`: shuffles a scheduler's priority queue before each
  greedy scheduling pass. A pass is driven from outside: `schedule` begins it, and
  `resume` goes on until work is to be sent to a thread or the pass is over.
- `scheduler::model` and `scheduler::laws`: a pass as a state machine, and what holds
  of every pass (nothing is lost, sent twice or sent out of queue order; write locks
  stay exclusive; conflicting transactions are outstanding on one thread only; the
  limits are kept).
- `scheduler::{common, container, transaction}`: the batches, the buffer with its
  priority queue, and transactions as the scheduler sees them.
- `digest`, `identity`, `shuffle`, `scheduler::locks`: the boundary to the crates that
  compute SHA-256, Ed25519, ChaCha20 shuffles and account locks. What is believed of
  them is stated there.
- `bytes`, `sorting`: lexicographic order and a merge sort.

`app/` is ordinary Rust around it: serialization, error messages, conversion of
runtime transactions, and the channels to the worker threads.
