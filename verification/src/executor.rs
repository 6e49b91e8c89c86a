//! The cooperative scheduler: a fixed-capacity table of optional traversal
//! tasks, polled in strict round-robin order until every spawned task has
//! reported done.

use crate::travellers::lemma_chain_sum_monotone;
use crate::travellers::total_chain_sum;
use crate::travellers::total_fresh_polls;
use crate::travellers::Step;
use crate::travellers::TraversalTask;
use crate::workloads::chain_sum;
use crate::workloads::ArrayList;
use vstd::prelude::*;

verus! {

/// The default number of task slots a scheduler is built with.
pub const EXECUTOR_QUEUE_SIZE: usize = 4;

/// The slot index a spawned task was placed into.
#[derive(Debug, Clone, Copy, Eq, PartialEq, Ord, PartialOrd, Structural)]
pub struct TaskId(pub usize);

/// Spawning can fail in exactly one way: every slot is already occupied.
#[derive(Debug, Clone, Copy, Eq, PartialEq, Structural)]
pub enum SpawnError {
    CapacityExceeded,
}

/// The full traversal sum one slot still owes: the whole sum of its task's
/// structure, or nothing for an empty slot.
pub open spec fn slot_task_sum(slot: Option<TraversalTask>) -> int {
    match slot {
        Some(t) => chain_sum(t.workload@, t.workload@.len()),
        None => 0,
    }
}

/// The polls one slot still needs, or nothing for an empty slot.
pub open spec fn slot_task_polls(slot: Option<TraversalTask>) -> int {
    match slot {
        Some(t) => t.polls_left(),
        None => 0,
    }
}

/// One for an occupied slot, zero for an empty one.
pub open spec fn slot_task_count(slot: Option<TraversalTask>) -> int {
    match slot {
        Some(t) => 1,
        None => 0,
    }
}

/// The traversal total still owed by the tasks in `slots[from..]`.
pub open spec fn slot_sum(slots: Seq<Option<TraversalTask>>, from: int) -> int
    decreases slots.len() - from,
{
    if from < 0 || from >= slots.len() {
        0
    } else {
        slot_task_sum(slots[from]) + slot_sum(slots, from + 1)
    }
}

/// The polls still needed by the tasks in `slots[from..]`.
pub open spec fn slot_polls(slots: Seq<Option<TraversalTask>>, from: int) -> int
    decreases slots.len() - from,
{
    if from < 0 || from >= slots.len() {
        0
    } else {
        slot_task_polls(slots[from]) + slot_polls(slots, from + 1)
    }
}

/// How many of the slots in `slots[from..]` are occupied.
pub open spec fn slot_count(slots: Seq<Option<TraversalTask>>, from: int) -> int
    decreases slots.len() - from,
{
    if from < 0 || from >= slots.len() {
        0
    } else {
        slot_task_count(slots[from]) + slot_count(slots, from + 1)
    }
}

/// Every occupied slot `j` holds an unfinished task in a poll-consistent state
/// that is bound to `ws[j]`, the structure the scheduler will hand it.
pub open spec fn slots_bound(slots: Seq<Option<TraversalTask>>, ws: Seq<ArrayList>) -> bool {
    forall|j: int|
        0 <= j < slots.len() ==> ((#[trigger] slots[j]) matches Some(t) ==> {
            &&& j < ws.len()
            &&& t.workload@ == ws[j]@
            &&& ws[j].wf()
            &&& t.inv()
            &&& !t.finished
        })
}

/// Slot `j` holds a fresh task over `ws[j]` for `j < k`; all later slots are
/// empty. This is the table shape that spawning one task per structure,
/// in order, produces.
pub open spec fn slots_aligned(
    slots: Seq<Option<TraversalTask>>,
    ws: Seq<ArrayList>,
    k: int,
) -> bool {
    &&& 0 <= k <= ws.len()
    &&& k <= slots.len()
    &&& forall|j: int|
        0 <= j < k ==> ((#[trigger] slots[j]) matches Some(t) && t.workload@ == ws[j]@
            && t.fresh())
    &&& forall|j: int| k <= j < slots.len() ==> (#[trigger] slots[j]) is None
}

/// Replacing the contents of one slot shifts each of the three slot tallies by
/// exactly the difference of the affected terms.
proof fn lemma_slots_update(
    slots: Seq<Option<TraversalTask>>,
    i: int,
    v: Option<TraversalTask>,
    from: int,
)
    requires
        0 <= i < slots.len(),
        0 <= from <= slots.len(),
    ensures
        slot_sum(slots.update(i, v), from) == slot_sum(slots, from) + (if from <= i {
            slot_task_sum(v) - slot_task_sum(slots[i])
        } else {
            0
        }),
        slot_polls(slots.update(i, v), from) == slot_polls(slots, from) + (if from <= i {
            slot_task_polls(v) - slot_task_polls(slots[i])
        } else {
            0
        }),
        slot_count(slots.update(i, v), from) == slot_count(slots, from) + (if from <= i {
            slot_task_count(v) - slot_task_count(slots[i])
        } else {
            0
        }),
    decreases slots.len() - from,
{
    if from < slots.len() {
        lemma_slots_update(slots, i, v, from + 1);
        if from != i {
            assert(slots.update(i, v)[from] == slots[from]);
        }
    }
}

/// Under `slots_bound` none of the three tallies can be negative, and every
/// occupied slot still needs at least one poll.
proof fn lemma_slots_nonneg(slots: Seq<Option<TraversalTask>>, ws: Seq<ArrayList>, from: int)
    requires
        slots_bound(slots, ws),
        0 <= from <= slots.len(),
    ensures
        slot_sum(slots, from) >= 0,
        slot_polls(slots, from) >= 0,
        slot_count(slots, from) >= 0,
    decreases slots.len() - from,
{
    if from < slots.len() {
        lemma_slots_nonneg(slots, ws, from + 1);
        match slots[from] {
            Some(t) => {
                lemma_chain_sum_monotone(t.workload@, 0, t.workload@.len());
            },
            None => {},
        }
    }
}

/// The occupied-slot count lies between 0 and the table size, and is zero
/// exactly when every slot from `from` on is empty.
proof fn lemma_count_bounds(slots: Seq<Option<TraversalTask>>, from: int)
    requires
        0 <= from <= slots.len(),
    ensures
        0 <= slot_count(slots, from) <= slots.len() - from,
        slot_count(slots, from) == 0 <==> (forall|j: int|
            from <= j < slots.len() ==> (#[trigger] slots[j]) is None),
    decreases slots.len() - from,
{
    if from < slots.len() {
        lemma_count_bounds(slots, from + 1);
    }
}

/// A table of empty slots owes nothing: all three tallies are zero.
pub proof fn lemma_empty_slots_zero(slots: Seq<Option<TraversalTask>>, from: int)
    requires
        0 <= from <= slots.len(),
        forall|j: int| from <= j < slots.len() ==> (#[trigger] slots[j]) is None,
    ensures
        slot_sum(slots, from) == 0,
        slot_polls(slots, from) == 0,
        slot_count(slots, from) == 0,
    decreases slots.len() - from,
{
    if from < slots.len() {
        lemma_empty_slots_zero(slots, from + 1);
    }
}

/// An occupied slot's own dues never exceed the whole table's dues.
proof fn lemma_slot_term_bounds(slots: Seq<Option<TraversalTask>>, ws: Seq<ArrayList>, i: int)
    requires
        slots_bound(slots, ws),
        0 <= i < slots.len(),
    ensures
        slot_task_sum(slots[i]) <= slot_sum(slots, 0),
        slot_task_polls(slots[i]) <= slot_polls(slots, 0),
        slot_task_count(slots[i]) <= slot_count(slots, 0),
{
    let cleared = slots.update(i, None);
    lemma_slots_update(slots, i, None, 0);
    assert(slots_bound(cleared, ws)) by {
        assert forall|j: int|
            0 <= j < cleared.len() implies ((#[trigger] cleared[j]) matches Some(t) ==> {
            &&& j < ws.len()
            &&& t.workload@ == ws[j]@
            &&& ws[j].wf()
            &&& t.inv()
            &&& !t.finished
        }) by {
            if j != i {
                assert(cleared[j] == slots[j]);
            }
        }
    }
    lemma_slots_nonneg(cleared, ws, 0);
}

/// Sequential/interleaved equivalence, at the level of what is owed: a slot
/// table loaded with one fresh task per structure owes the scheduler exactly
/// the total that sequential traversal of the same structures produces.
pub proof fn lemma_scheduler_matches_sequential(
    slots: Seq<Option<TraversalTask>>,
    ws: Seq<ArrayList>,
    from: int,
)
    requires
        slots_aligned(slots, ws, ws.len() as int),
        0 <= from,
    ensures
        slot_sum(slots, from) == total_chain_sum(ws, from),
    decreases slots.len() - from,
{
    if from < slots.len() {
        lemma_scheduler_matches_sequential(slots, ws, from + 1);
    }
}

/// An aligned table of fresh tasks needs exactly the polls its structures
/// call for.
pub proof fn lemma_scheduler_fresh_polls(
    slots: Seq<Option<TraversalTask>>,
    ws: Seq<ArrayList>,
    from: int,
)
    requires
        slots_aligned(slots, ws, ws.len() as int),
        0 <= from,
    ensures
        slot_polls(slots, from) == total_fresh_polls(ws, from),
    decreases slots.len() - from,
{
    if from < slots.len() {
        lemma_scheduler_fresh_polls(slots, ws, from + 1);
    }
}

/// The poll count of an aligned table of `k` fresh tasks over structures of
/// one common size `n`, sweeping in from the back of the table.
proof fn lemma_poll_bound_from(
    slots: Seq<Option<TraversalTask>>,
    ws: Seq<ArrayList>,
    n: int,
    from: int,
)
    requires
        slots_aligned(slots, ws, ws.len() as int),
        n >= 1,
        forall|i: int| 0 <= i < ws.len() ==> (#[trigger] ws[i])@.len() == n,
        0 <= from <= ws.len(),
    ensures
        slot_polls(slots, from) == (ws.len() - from) * (n + 1),
    decreases ws.len() - from,
{
    let k = ws.len() as int;
    if from == k {
        lemma_empty_slots_zero(slots, from);
        assert((k - from) * (n + 1) == 0) by (nonlinear_arith)
            requires
                from == k,
        ;
    } else {
        lemma_poll_bound_from(slots, ws, n, from + 1);
        assert((k - from) * (n + 1) == (n + 1) + (k - from - 1) * (n + 1)) by (nonlinear_arith)
            requires
                from < k,
        ;
    }
}

/// Scheduler termination bound: a table loaded with `k` fresh tasks, each
/// over a structure of size `n >= 1`, owes exactly `k * n + k` polls — the
/// `k * n` polls that each complete one element visit plus the `k` one-shot
/// suspend-only polls — and [`Executor::run`] makes exactly that many.
pub proof fn lemma_scheduler_termination_bound(
    slots: Seq<Option<TraversalTask>>,
    ws: Seq<ArrayList>,
    n: int,
)
    requires
        slots_aligned(slots, ws, ws.len() as int),
        n >= 1,
        forall|i: int| 0 <= i < ws.len() ==> (#[trigger] ws[i])@.len() == n,
    ensures
        slot_polls(slots, 0) == ws.len() * n + ws.len(),
{
    let k = ws.len() as int;
    lemma_poll_bound_from(slots, ws, n, 0);
    assert(k * (n + 1) == k * n + k) by (nonlinear_arith);
}

/// The cooperative scheduler. `slots` is the fixed-size table of optional
/// tasks, filled by [`Executor::spawn`] and drained by [`Executor::run`];
/// `active` counts the occupied slots; `polls` records how many polls the
/// most recent run made.
pub struct Executor {
    pub slots: Vec<Option<TraversalTask>>,
    pub active: usize,
    pub polls: u64,
}

impl Executor {
    /// The fixed number of slots, chosen at construction and never changed.
    pub open spec fn capacity(&self) -> nat {
        self.slots@.len()
    }

    /// The slot count is faithfully mirrored by `active`.
    pub open spec fn wf(&self) -> bool {
        self.active == slot_count(self.slots@, 0)
    }

    /// All slots are free: nothing spawned, or everything already run.
    pub open spec fn idle(&self) -> bool {
        forall|j: int| 0 <= j < self.slots@.len() ==> (#[trigger] self.slots@[j]) is None
    }

    /// A scheduler with `capacity` empty slots.
    pub fn new(capacity: usize) -> (e: Executor)
        ensures
            e.wf(),
            e.idle(),
            e.capacity() == capacity,
            e.active == 0,
            e.polls == 0,
    {
        let mut slots: Vec<Option<TraversalTask>> = Vec::new();
        let mut i: usize = 0;
        while i < capacity
            invariant
                i <= capacity,
                slots@.len() == i,
                forall|j: int| 0 <= j < i ==> (#[trigger] slots@[j]) is None,
            decreases capacity - i,
        {
            slots.push(None);
            i += 1;
        }
        proof {
            lemma_empty_slots_zero(slots@, 0);
        }
        Executor { slots, active: 0, polls: 0 }
    }

    /// Places `task` into the lowest-numbered empty slot and reports which one.
    /// When every slot is occupied it reports `CapacityExceeded` and leaves
    /// the table untouched: no task is dropped or overwritten.
    pub fn spawn(&mut self, task: TraversalTask) -> (r: Result<TaskId, SpawnError>)
        requires
            old(self).wf(),
        ensures
            final(self).wf(),
            final(self).capacity() == old(self).capacity(),
            final(self).polls == old(self).polls,
            (match r {
                Ok(id) => {
                    &&& id.0 < old(self).capacity()
                    &&& old(self).slots@[id.0 as int] is None
                    &&& (forall|j: int| 0 <= j < id.0 ==> (#[trigger] old(self).slots@[j]) is Some)
                    &&& final(self).slots@ == old(self).slots@.update(id.0 as int, Some(task))
                    &&& final(self).active == old(self).active + 1
                },
                Err(e) => {
                    &&& e == SpawnError::CapacityExceeded
                    &&& (forall|j: int|
                        0 <= j < old(self).capacity() ==> (#[trigger] old(self).slots@[j]) is Some)
                    &&& *final(self) == *old(self)
                },
            }),
    {
        let cap = self.slots.len();
        let mut i: usize = 0;
        while i < cap
            invariant
                i <= cap,
                *self == *old(self),
                self.wf(),
                cap == self.slots@.len(),
                forall|j: int| 0 <= j < i ==> (#[trigger] self.slots@[j]) is Some,
            decreases cap - i,
        {
            if self.slots[i].is_none() {
                let ghost pre = self.slots@;
                self.slots[i] = Some(task);
                proof {
                    assert(self.slots@ =~= pre.update(i as int, Some(task)));
                    lemma_slots_update(pre, i as int, Some(task), 0);
                    lemma_count_bounds(self.slots@, 0);
                }
                self.active = self.active + 1;
                return Ok(TaskId(i));
            }
            i += 1;
        }
        Err(SpawnError::CapacityExceeded)
    }

    /// Round-robin polling: sweeps the slot table from slot 0 upward, polling
    /// the task in every occupied slot once per sweep and skipping empty
    /// slots. A task that reports not-done stays in place; one that reports
    /// done has its sum added to the running total and its slot cleared. The
    /// run stops once every spawned task has completed, and returns the
    /// aggregate total; `polls` afterwards holds the exact number of polls
    /// made, which is the sum of what each spawned task needed.
    pub fn run(&mut self, workloads: &Vec<ArrayList>) -> (total: u64)
        requires
            old(self).wf(),
            slots_bound(old(self).slots@, workloads@),
            slot_sum(old(self).slots@, 0) <= u64::MAX,
            slot_polls(old(self).slots@, 0) <= u64::MAX,
        ensures
            final(self).wf(),
            final(self).idle(),
            final(self).capacity() == old(self).capacity(),
            final(self).active == 0,
            total == slot_sum(old(self).slots@, 0),
            final(self).polls == slot_polls(old(self).slots@, 0),
    {
        let ghost start_slots = self.slots@;
        self.polls = 0;
        let mut total: u64 = 0;
        let cap = self.slots.len();
        proof {
            lemma_slots_nonneg(start_slots, workloads@, 0);
        }
        while self.active > 0
            invariant
                self.wf(),
                cap == self.slots@.len(),
                slots_bound(self.slots@, workloads@),
                total + slot_sum(self.slots@, 0) == slot_sum(start_slots, 0),
                self.polls + slot_polls(self.slots@, 0) == slot_polls(start_slots, 0),
                slot_sum(self.slots@, 0) >= 0,
                slot_polls(self.slots@, 0) >= 0,
                slot_sum(start_slots, 0) <= u64::MAX,
                slot_polls(start_slots, 0) <= u64::MAX,
            decreases slot_polls(self.slots@, 0),
        {
            let ghost sweep_slots = self.slots@;
            let ghost sweep_polls = self.polls;
            proof {
                assert(slot_count(sweep_slots, 0) > 0);
            }
            let mut pos: usize = 0;
            while pos < cap
                invariant
                    self.wf(),
                    cap == self.slots@.len(),
                    slots_bound(self.slots@, workloads@),
                    total + slot_sum(self.slots@, 0) == slot_sum(start_slots, 0),
                    self.polls + slot_polls(self.slots@, 0) == slot_polls(start_slots, 0),
                    slot_sum(self.slots@, 0) >= 0,
                    slot_polls(self.slots@, 0) >= 0,
                    slot_sum(start_slots, 0) <= u64::MAX,
                    slot_polls(start_slots, 0) <= u64::MAX,
                    pos <= cap,
                    sweep_slots.len() == cap,
                    forall|j: int| pos <= j < cap ==> self.slots@[j] == sweep_slots[j],
                    forall|j: int|
                        0 <= j < cap && (#[trigger] sweep_slots[j]) is None ==> self.slots@[j]
                            is None,
                    self.polls >= sweep_polls,
                    (exists|j: int| 0 <= j < pos && (#[trigger] sweep_slots[j]) is Some)
                        ==> self.polls > sweep_polls,
                decreases cap - pos,
            {
                let ghost pre = self.slots@;
                let entry = self.slots.remove(pos);
                match entry {
                    None => {
                        self.slots.insert(pos, None);
                        proof {
                            assert(self.slots@ =~= pre);
                        }
                    },
                    Some(mut task) => {
                        proof {
                            task.lemma_unfinished_needs_poll();
                            lemma_slot_term_bounds(pre, workloads@, pos as int);
                            lemma_chain_sum_monotone(task.workload@, 0, task.workload@.len());
                        }
                        self.polls = self.polls + 1;
                        let step = task.advance(&workloads[pos]);
                        match step {
                            Step::Pending => {
                                self.slots.insert(pos, Some(task));
                                proof {
                                    assert(self.slots@ =~= pre.update(pos as int, Some(task)));
                                    lemma_slots_update(pre, pos as int, Some(task), 0);
                                }
                            },
                            Step::Done(s) => {
                                total = total + s;
                                self.slots.insert(pos, None);
                                self.active = self.active - 1;
                                proof {
                                    assert(self.slots@ =~= pre.update(pos as int, None));
                                    lemma_slots_update(pre, pos as int, None, 0);
                                }
                            },
                        }
                        proof {
                            assert(slots_bound(self.slots@, workloads@)) by {
                                assert forall|j: int|
                                    0 <= j < self.slots@.len() implies ((
                                #[trigger] self.slots@[j]) matches Some(t) ==> {
                                    &&& j < workloads@.len()
                                    &&& t.workload@ == workloads@[j]@
                                    &&& workloads@[j].wf()
                                    &&& t.inv()
                                    &&& !t.finished
                                }) by {
                                    if j != pos {
                                        assert(self.slots@[j] == pre[j]);
                                    }
                                }
                            }
                            lemma_slots_nonneg(self.slots@, workloads@, 0);
                        }
                    },
                }
                pos += 1;
            }
            proof {
                lemma_count_bounds(sweep_slots, 0);
                let j = choose|j: int|
                    0 <= j < sweep_slots.len() && !((#[trigger] sweep_slots[j]) is None);
                assert(0 <= j < pos && sweep_slots[j] is Some);
            }
        }
        proof {
            lemma_count_bounds(self.slots@, 0);
            lemma_empty_slots_zero(self.slots@, 0);
        }
        total
    }
}

} // verus!
