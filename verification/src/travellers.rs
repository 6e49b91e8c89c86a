//! The two traversal strategies over linked array structures: a plain
//! sequential walk, and a suspending traversal task driven by repeated polls
//! so that a cooperative scheduler can interleave several walks.

use crate::executor::lemma_empty_slots_zero;
use crate::executor::lemma_scheduler_fresh_polls;
use crate::executor::lemma_scheduler_matches_sequential;
use crate::executor::slots_aligned;
use crate::executor::slots_bound;
use crate::executor::Executor;
use crate::executor::EXECUTOR_QUEUE_SIZE;
use crate::workloads::chain_at;
use crate::workloads::chain_sum;
use crate::workloads::ground_truth;
use crate::workloads::ArrayList;
use vstd::prelude::*;

verus! {

/// The two answers a poll of the suspension primitive can give.
#[derive(Clone, Copy, Debug, PartialEq, Eq, Structural)]
pub enum PollState {
    Pending,
    Ready,
}

/// The suspension primitive: it models one issued memory fetch. The first
/// poll after creation reports `Pending` exactly once; every later poll
/// reports `Ready` with no further effect.
pub struct MemoryAccessFuture {
    pub is_first_poll: bool,
}

impl MemoryAccessFuture {
    pub fn new() -> (f: MemoryAccessFuture)
        ensures
            f.is_first_poll,
    {
        MemoryAccessFuture { is_first_poll: true }
    }

    pub fn poll(&mut self) -> (r: PollState)
        ensures
            !final(self).is_first_poll,
            r == (if old(self).is_first_poll {
                PollState::Pending
            } else {
                PollState::Ready
            }),
    {
        if self.is_first_poll {
            self.is_first_poll = false;
            PollState::Pending
        } else {
            PollState::Ready
        }
    }
}

/// What one advance of a traversal task reports: still pending, or done with
/// the task's accumulated sum.
#[derive(Clone, Copy, Debug, PartialEq, Eq, Structural)]
pub enum Step {
    Pending,
    Done(u64),
}

/// Hardware prefetch hint for the cell the task is about to read. Purely a
/// performance hint with no observable effect on any result; this build uses
/// the guaranteed no-op fallback, so behaviour is identical on every target.
#[inline(always)]
pub fn prefetch(_workload: &ArrayList, _index: usize) {
}

/// Following the chain never leaves the array, provided every stored index is
/// in range.
pub proof fn lemma_chain_at_bound(a: Seq<u64>, k: nat)
    requires
        a.len() > 0,
        forall|i: int| 0 <= i < a.len() ==> (#[trigger] a[i]) < a.len(),
    ensures
        chain_at(a, k) < a.len(),
    decreases k,
{
    if k > 0 {
        lemma_chain_at_bound(a, (k - 1) as nat);
    }
}

/// The running sum of a traversal never decreases as it takes more hops.
pub proof fn lemma_chain_sum_monotone(a: Seq<u64>, k1: nat, k2: nat)
    requires
        k1 <= k2,
    ensures
        chain_sum(a, k1) <= chain_sum(a, k2),
    decreases k2,
{
    if k1 < k2 {
        lemma_chain_sum_monotone(a, k1, (k2 - 1) as nat);
    }
}

/// The grand total that a full traversal of the structures `ws[from..]` must
/// yield, structure by structure.
pub open spec fn total_chain_sum(ws: Seq<ArrayList>, from: int) -> int
    decreases ws.len() - from,
{
    if from < 0 || from >= ws.len() {
        0
    } else {
        chain_sum(ws[from]@, ws[from]@.len()) + total_chain_sum(ws, from + 1)
    }
}

/// The sum of the closed-form checksums of the structures `ws[from..]`.
pub open spec fn total_ground_truth(ws: Seq<ArrayList>, from: int) -> int
    decreases ws.len() - from,
{
    if from < 0 || from >= ws.len() {
        0
    } else {
        ground_truth(ws[from]@.len()) + total_ground_truth(ws, from + 1)
    }
}

/// A traversal total is a sum of cell values and can never be negative.
pub proof fn lemma_total_chain_sum_nonneg(ws: Seq<ArrayList>, from: int)
    ensures
        total_chain_sum(ws, from) >= 0,
    decreases ws.len() - from,
{
    if 0 <= from < ws.len() {
        lemma_chain_sum_monotone(ws[from]@, 0, ws[from]@.len());
        lemma_total_chain_sum_nonneg(ws, from + 1);
    }
}

/// Over well-formed structures the traversal total and the closed-form
/// checksums agree, structure by structure.
pub proof fn lemma_total_chain_is_ground_truth(ws: Seq<ArrayList>, from: int)
    requires
        forall|i: int| 0 <= i < ws.len() ==> (#[trigger] ws[i]).wf(),
    ensures
        total_chain_sum(ws, from) == total_ground_truth(ws, from),
    decreases ws.len() - from,
{
    if 0 <= from < ws.len() {
        ws[from].lemma_traversal_checksum();
        lemma_total_chain_is_ground_truth(ws, from + 1);
    }
}

/// The polls a fresh task over a structure of size `n` needs to complete: its
/// single suspend-only yield plus one per element, while a size-zero task
/// still takes two polls to report its empty sum.
pub open spec fn fresh_task_polls(n: nat) -> int {
    if n == 0 {
        2
    } else {
        n + 1int
    }
}

/// The polls a scheduler loaded with one fresh task per structure of
/// `ws[from..]` will make in total.
pub open spec fn total_fresh_polls(ws: Seq<ArrayList>, from: int) -> int
    decreases ws.len() - from,
{
    if from < 0 || from >= ws.len() {
        0
    } else {
        fresh_task_polls(ws[from]@.len()) + total_fresh_polls(ws, from + 1)
    }
}

/// A single logical walk over one linked array structure, expressed as a
/// suspending computation. Each element visit issues a prefetch hint, yields
/// once through a [`MemoryAccessFuture`], and on the next poll consumes the
/// fetched value. The ghost `workload` pins the task to the one structure it
/// was created over.
pub struct TraversalTask {
    pub cursor: usize,
    pub sum: u64,
    pub steps: usize,
    pub fetch: MemoryAccessFuture,
    pub finished: bool,
    pub workload: Ghost<Seq<u64>>,
}

impl TraversalTask {
    /// The size of the structure the task walks.
    pub open spec fn size(&self) -> nat {
        self.workload@.len()
    }

    /// The state a task holds between polls: the cursor and the partial sum
    /// are exactly those of a traversal that has taken `steps` hops.
    pub open spec fn inv(&self) -> bool {
        &&& self.steps <= self.size()
        &&& self.cursor == chain_at(self.workload@, self.steps as nat)
        &&& self.sum == chain_sum(self.workload@, self.steps as nat)
        &&& (self.fetch.is_first_poll ==> self.steps == 0 && !self.finished)
        &&& (self.finished ==> self.steps == self.size())
        &&& (self.steps == self.size() && self.size() > 0 ==> self.finished)
    }

    /// A task that has never been polled.
    pub open spec fn fresh(&self) -> bool {
        &&& self.cursor == 0
        &&& self.sum == 0
        &&& self.steps == 0
        &&& self.fetch.is_first_poll
        &&& !self.finished
    }

    /// How many polls the task still needs before it reports done: one for
    /// the initial suspend-only yield, then one per remaining element (a
    /// size-zero task still needs one poll to report its empty sum).
    pub open spec fn polls_left(&self) -> int {
        if self.finished {
            0
        } else {
            (if self.fetch.is_first_poll {
                1int
            } else {
                0int
            }) + (if self.size() == 0 {
                1int
            } else {
                self.size() - self.steps
            })
        }
    }

    /// A task that has not yet reported done always needs at least one more
    /// poll.
    pub proof fn lemma_unfinished_needs_poll(&self)
        requires
            self.inv(),
            !self.finished,
        ensures
            self.polls_left() >= 1,
    {
    }

    /// Creates a task bound to `workload`; it is driven to completion strictly
    /// by repeated external polling.
    pub fn new(workload: &ArrayList) -> (t: TraversalTask)
        ensures
            t.fresh(),
            t.inv(),
            t.workload@ == workload@,
    {
        TraversalTask {
            cursor: 0,
            sum: 0,
            steps: 0,
            fetch: MemoryAccessFuture::new(),
            finished: false,
            workload: Ghost(workload@),
        }
    }

    /// One poll of the task. The very first poll only issues the prefetch for
    /// the start cell and yields; every later poll consumes one fetched value
    /// and either yields again (with the next fetch issued) or, once all
    /// elements are visited, reports done with the full traversal sum. A task
    /// that has reported done must not be polled again.
    pub fn advance(&mut self, workload: &ArrayList) -> (r: Step)
        requires
            old(self).inv(),
            !old(self).finished,
            workload@ == old(self).workload@,
            workload.wf(),
            chain_sum(workload@, workload@.len()) <= u64::MAX,
        ensures
            final(self).workload == old(self).workload,
            final(self).inv(),
            final(self).polls_left() == old(self).polls_left() - 1,
            r == Step::Pending <==> !final(self).finished,
            old(self).fetch.is_first_poll ==> final(self).steps == 0 && r == Step::Pending,
            !old(self).fetch.is_first_poll && old(self).steps < old(self).size()
                ==> final(self).steps == old(self).steps + 1,
            r != Step::Pending ==> r == Step::Done(
                chain_sum(old(self).workload@, old(self).workload@.len()) as u64,
            ),
    {
        let poll = self.fetch.poll();
        match poll {
            PollState::Pending => {
                // the conceptual fetch of the start cell is now in flight
                prefetch(workload, self.cursor);
                Step::Pending
            },
            PollState::Ready => {
                let n = workload.list.len();
                if self.steps == n {
                    self.finished = true;
                    Step::Done(self.sum)
                } else {
                    proof {
                        lemma_chain_at_bound(workload@, self.steps as nat);
                        lemma_chain_sum_monotone(workload@, (self.steps + 1) as nat, n as nat);
                    }
                    let value = workload.lookup(self.cursor);
                    assert(value == chain_at(workload@, (self.steps + 1) as nat));
                    self.sum = self.sum + value;
                    self.cursor = value as usize;
                    self.steps = self.steps + 1;
                    if self.steps == n {
                        self.finished = true;
                        Step::Done(self.sum)
                    } else {
                        // issue the next fetch and suspend on it at once
                        prefetch(workload, self.cursor);
                        self.fetch = MemoryAccessFuture::new();
                        let first = self.fetch.poll();
                        assert(first == PollState::Pending);
                        Step::Pending
                    }
                }
            },
        }
    }
}

/// A traversal strategy: something that can walk a set of structures to
/// completion and report the grand total of all values read.
pub trait Traveller: Sized {
    /// When this traveller may be asked to traverse `workloads`.
    spec fn ready(&self, workloads: &Vec<ArrayList>) -> bool;

    /// One-time preparation before a run; neither strategy needs any.
    fn setup(&mut self)
        ensures
            *final(self) == *old(self),
    ;

    /// Walks every structure in `workloads` to completion. Whatever the
    /// strategy, the result is the traversal total of all the structures,
    /// which for well-formed structures is the sum of their closed-form
    /// checksums.
    fn traverse(&mut self, workloads: &Vec<ArrayList>) -> (sum: u64)
        requires
            old(self).ready(workloads),
        ensures
            sum == total_chain_sum(workloads@, 0),
            sum == total_ground_truth(workloads@, 0),
    ;

    /// The strategy's display name.
    fn get_name(&self) -> &'static str;
}

/// The latency baseline: walks one structure to completion before starting
/// the next, with no suspension point anywhere.
pub struct SimpleTraversal;

impl Traveller for SimpleTraversal {
    open spec fn ready(&self, workloads: &Vec<ArrayList>) -> bool {
        &&& forall|i: int| 0 <= i < workloads@.len() ==> (#[trigger] workloads@[i]).wf()
        &&& total_ground_truth(workloads@, 0) <= u64::MAX
    }

    fn setup(&mut self) {
    }

    fn traverse(&mut self, workloads: &Vec<ArrayList>) -> (sum: u64) {
        proof {
            lemma_total_chain_is_ground_truth(workloads@, 0);
        }
        let mut sum: u64 = 0;
        let mut w: usize = 0;
        while w < workloads.len()
            invariant
                w <= workloads@.len(),
                forall|i: int| 0 <= i < workloads@.len() ==> (#[trigger] workloads@[i]).wf(),
                total_chain_sum(workloads@, 0) <= u64::MAX,
                sum + total_chain_sum(workloads@, w as int) == total_chain_sum(workloads@, 0),
            decreases workloads@.len() - w,
        {
            let workload = &workloads[w];
            let ghost a = workload@;
            let ghost sum0 = sum;
            let n = workload.list.len();
            proof {
                lemma_total_chain_sum_nonneg(workloads@, w as int + 1);
                assert(total_chain_sum(workloads@, w as int) == chain_sum(a, a.len())
                    + total_chain_sum(workloads@, w as int + 1));
            }
            let mut pre_idx: usize = 0;
            let mut i: usize = 0;
            while i < n
                invariant
                    i <= n,
                    n == a.len(),
                    a == workload@,
                    workload.wf(),
                    pre_idx == chain_at(a, i as nat),
                    sum == sum0 + chain_sum(a, i as nat),
                    sum0 + chain_sum(a, n as nat) <= u64::MAX,
                decreases n - i,
            {
                proof {
                    lemma_chain_at_bound(a, i as nat);
                    lemma_chain_sum_monotone(a, (i + 1) as nat, n as nat);
                }
                let value = workload.lookup(pre_idx);
                assert(value == chain_at(a, (i + 1) as nat));
                sum = sum + value;
                pre_idx = value as usize;
                i += 1;
            }
            w += 1;
        }
        sum
    }

    fn get_name(&self) -> &'static str {
        "SimpleTraversal"
    }
}

/// The interleaved strategy: spawns one suspending traversal task per
/// structure into the cooperative scheduler, whose round-robin polling lets
/// each task's conceptual fetch latency hide behind the progress of the
/// others.
pub struct AsyncTraversal {
    pub executor: Executor,
}

impl AsyncTraversal {
    /// A traveller whose scheduler has the default number of slots.
    pub fn new() -> (t: AsyncTraversal)
        ensures
            t.executor.wf(),
            t.executor.idle(),
            t.executor.capacity() == EXECUTOR_QUEUE_SIZE,
    {
        AsyncTraversal { executor: Executor::new(EXECUTOR_QUEUE_SIZE) }
    }
}

impl Traveller for AsyncTraversal {
    open spec fn ready(&self, workloads: &Vec<ArrayList>) -> bool {
        &&& forall|i: int| 0 <= i < workloads@.len() ==> (#[trigger] workloads@[i]).wf()
        &&& total_ground_truth(workloads@, 0) <= u64::MAX
        &&& total_fresh_polls(workloads@, 0) <= u64::MAX
        &&& self.executor.wf()
        &&& self.executor.idle()
        &&& workloads@.len() <= self.executor.capacity()
    }

    fn setup(&mut self) {
    }

    fn traverse(&mut self, workloads: &Vec<ArrayList>) -> (sum: u64) {
        proof {
            lemma_empty_slots_zero(self.executor.slots@, 0);
        }
        let k = workloads.len();
        let mut i: usize = 0;
        while i < k
            invariant
                i <= k,
                k == workloads@.len(),
                forall|j: int| 0 <= j < workloads@.len() ==> (#[trigger] workloads@[j]).wf(),
                total_ground_truth(workloads@, 0) <= u64::MAX,
                total_fresh_polls(workloads@, 0) <= u64::MAX,
                self.executor.wf(),
                k <= self.executor.capacity(),
                self.executor.active == i,
                forall|j: int|
                    0 <= j < i ==> ((#[trigger] self.executor.slots@[j]) matches Some(t)
                        && t.workload@ == workloads@[j]@ && t.fresh()),
                forall|j: int|
                    i <= j < self.executor.capacity() ==> (#[trigger] self.executor.slots@[j])
                        is None,
            decreases k - i,
        {
            let task = TraversalTask::new(&workloads[i]);
            let ghost pre = self.executor.slots@;
            let r = self.executor.spawn(task);
            match r {
                Ok(id) => {
                    proof {
                        assert(id.0 == i) by {
                            if id.0 < i {
                                assert(pre[id.0 as int] is None);
                            }
                            if id.0 > i {
                                assert(pre[i as int] is Some);
                            }
                        }
                        assert forall|j: int|
                            0 <= j < i + 1 implies ((#[trigger] self.executor.slots@[j]) matches
                        Some(t) && t.workload@ == workloads@[j]@ && t.fresh()) by {
                            if j < i {
                                assert(self.executor.slots@[j] == pre[j]);
                            }
                        }
                    }
                },
                Err(_) => {
                    proof {
                        assert(pre[i as int] is Some);
                        assert(false);
                    }
                },
            }
            i += 1;
        }
        proof {
            assert(slots_aligned(self.executor.slots@, workloads@, k as int));
            lemma_scheduler_matches_sequential(self.executor.slots@, workloads@, 0);
            lemma_scheduler_fresh_polls(self.executor.slots@, workloads@, 0);
            lemma_total_chain_is_ground_truth(workloads@, 0);
            assert(slots_bound(self.executor.slots@, workloads@)) by {
                assert forall|j: int|
                    0 <= j < self.executor.slots@.len() implies ((
                #[trigger] self.executor.slots@[j]) matches Some(t) ==> {
                    &&& j < workloads@.len()
                    &&& t.workload@ == workloads@[j]@
                    &&& workloads@[j].wf()
                    &&& t.inv()
                    &&& !t.finished
                }) by {
                    if j < k {
                        assert(self.executor.slots@[j] matches Some(t) && t.fresh());
                    }
                }
            }
        }
        let total = self.executor.run(workloads);
        total
    }

    fn get_name(&self) -> &'static str {
        "AsyncTraversal"
    }
}

} // verus!
