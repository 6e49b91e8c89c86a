//! The linked array structure: a flat array of cells whose stored indices form
//! a single pseudo-random cycle over the whole array.

use rand::seq::SliceRandom;
use vstd::prelude::*;

verus! {

/// One slot of a linked array structure. It carries nothing but the index of
/// the next element to visit.
#[derive(Clone, Copy, Debug)]
pub struct Cell {
    pub next_index: u64,
}

impl Cell {
    pub fn new(next_idx: u64) -> (c: Cell)
        ensures
            c.next_index == next_idx,
    {
        Cell { next_index: next_idx }
    }

    pub fn set(&mut self, value: u64)
        ensures
            final(self).next_index == value,
    {
        self.next_index = value;
    }

    pub fn get(&self) -> (r: u64)
        ensures
            r == self.next_index,
    {
        self.next_index
    }
}

/// The closed-form checksum of a full traversal: the sum of all indices of a
/// structure of `n` cells, written as a recurrence so that proofs can follow it
/// step by step. Its closed form is `n * (n - 1) / 2`.
pub open spec fn ground_truth(n: nat) -> int
    decreases n,
{
    if n == 0 {
        0
    } else {
        ground_truth((n - 1) as nat) + (n - 1)
    }
}

/// Twice the checksum is the product `n * (n - 1)`; stating it without the
/// division keeps the induction within reach of nonlinear arithmetic.
proof fn lemma_ground_truth_doubled(n: nat)
    ensures
        2 * ground_truth(n) == n * (n - 1),
    decreases n,
{
    if n == 0 {
        assert(n * (n - 1) == 0) by (nonlinear_arith)
            requires
                n == 0,
        ;
    } else {
        lemma_ground_truth_doubled((n - 1) as nat);
        assert(((n - 1) as nat) * (((n - 1) as nat) - 1) == (n - 1) * (n - 2));
        assert((n - 1) * (n - 2) + 2 * (n - 1) == n * (n - 1)) by (nonlinear_arith);
    }
}

/// The recurrence above indeed has the familiar closed form.
pub proof fn lemma_ground_truth_closed_form(n: nat)
    ensures
        ground_truth(n) == n * (n - 1) / 2,
{
    lemma_ground_truth_doubled(n);
}

/// The index reached after `k` hops from index 0, following the stored
/// next-index of each visited cell in turn.
pub open spec fn chain_at(a: Seq<u64>, k: nat) -> u64
    decreases k,
{
    if k == 0 {
        0u64
    } else {
        a[chain_at(a, (k - 1) as nat) as int]
    }
}

/// The running sum of the values read during the first `k` hops from index 0:
/// hop number `j` reads the value `chain_at(a, j)`.
pub open spec fn chain_sum(a: Seq<u64>, k: nat) -> int
    decreases k,
{
    if k == 0 {
        0
    } else {
        chain_sum(a, (k - 1) as nat) + chain_at(a, k)
    }
}

/// The sequence `0, 1, ..., n - 1` (as `u64` values).
pub open spec fn all_indices(n: nat) -> Seq<u64> {
    Seq::new(n, |i: int| i as u64)
}

/// The sequence `1, 2, ..., n - 1` (as `u64` values): the indices that a fresh
/// permutation of the non-zero cells is drawn from.
pub open spec fn tail_indices(n: nat) -> Seq<u64> {
    Seq::new(if n == 0 { 0nat } else { (n - 1) as nat }, |i: int| (i + 1) as u64)
}

/// The indices visited by a full traversal: entry `k` is where the traversal
/// stands after `k` hops from index 0.
pub open spec fn visits(a: Seq<u64>) -> Seq<u64> {
    Seq::new(a.len(), |k: int| chain_at(a, k as nat))
}

/// The sum of a sequence of `u64` values, as an unbounded integer.
pub open spec fn seq_sum(s: Seq<u64>) -> int
    decreases s.len(),
{
    if s.len() == 0 {
        0
    } else {
        seq_sum(s.drop_last()) + s.last()
    }
}

/// `seq_sum` picks up `s[i]` no matter where in the sequence it stands.
proof fn lemma_seq_sum_remove(s: Seq<u64>, i: int)
    requires
        0 <= i < s.len(),
    ensures
        seq_sum(s) == seq_sum(s.remove(i)) + s[i],
    decreases s.len(),
{
    if i == s.len() - 1 {
        assert(s.remove(i) =~= s.drop_last());
    } else {
        let t = s.drop_last();
        lemma_seq_sum_remove(t, i);
        assert(s.remove(i).drop_last() =~= t.remove(i));
        assert(s.remove(i).last() == s.last());
    }
}

/// Two sequences holding the same values with the same multiplicities have the
/// same sum: rearrangement never changes `seq_sum`.
proof fn lemma_seq_sum_permutation(s1: Seq<u64>, s2: Seq<u64>)
    requires
        s1.to_multiset() == s2.to_multiset(),
    ensures
        seq_sum(s1) == seq_sum(s2),
    decreases s1.len(),
{
    broadcast use vstd::seq_lib::group_to_multiset_ensures;

    if s1.len() == 0 {
        assert(s2.to_multiset().len() == 0);
    } else {
        let v = s1.last();
        assert(s1.contains(v)) by {
            assert(s1[s1.len() - 1] == v);
        }
        assert(s2.to_multiset().count(v) > 0);
        assert(s2.contains(v));
        let j = choose|j: int| 0 <= j < s2.len() && s2[j] == v;
        assert(s1.remove(s1.len() - 1).to_multiset() == s1.to_multiset().remove(v));
        assert(s1.drop_last() =~= s1.remove(s1.len() - 1));
        assert(s2.remove(j).to_multiset() == s2.to_multiset().remove(v));
        lemma_seq_sum_permutation(s1.drop_last(), s2.remove(j));
        lemma_seq_sum_remove(s2, j);
    }
}

/// Summing `0, 1, ..., n - 1` gives the closed-form checksum.
proof fn lemma_seq_sum_all_indices(n: nat)
    requires
        n <= u64::MAX,
    ensures
        seq_sum(all_indices(n)) == ground_truth(n),
    decreases n,
{
    if n > 0 {
        assert(all_indices(n).drop_last() =~= all_indices((n - 1) as nat));
        lemma_seq_sum_all_indices((n - 1) as nat);
        assert(all_indices(n).last() == n - 1);
    }
}

/// Relies on rand's `SliceRandom::shuffle`, driven by `rand::thread_rng`: a
/// Fisher-Yates pass permutes the slice in place by swaps, so whatever order
/// comes back holds the same values with the same multiplicities as before.
#[verifier::external_body]
fn shuffle_values(values: &mut Vec<u64>)
    ensures
        final(values)@.len() == old(values)@.len(),
        final(values)@.to_multiset() == old(values)@.to_multiset(),
{
    values.shuffle(&mut rand::thread_rng());
}

/// What multiset equality with `tail_indices(n)` says of a value vector: it
/// has `n - 1` entries, no value twice, every value in `[1, n)`.
proof fn lemma_tail_values_facts(vals: Seq<u64>, n: nat)
    requires
        n <= u64::MAX,
        vals.to_multiset() == tail_indices(n).to_multiset(),
    ensures
        n == 0 ==> vals.len() == 0,
        n > 0 ==> vals.len() == n - 1,
        vals.no_duplicates(),
        forall|j: int| 0 <= j < vals.len() ==> 1 <= (#[trigger] vals[j]) < n,
{
    broadcast use vstd::seq_lib::group_to_multiset_ensures;

    let tail = tail_indices(n);
    assert(vals.to_multiset().len() == tail.to_multiset().len());
    assert(tail.no_duplicates()) by {
        assert forall|i: int, j: int| 0 <= i < j < tail.len() implies tail[i] != tail[j] by {
            assert(tail[i] == (i + 1) as u64);
            assert(tail[j] == (j + 1) as u64);
        }
    }
    tail.lemma_multiset_has_no_duplicates();
    assert forall|x: u64| vals.to_multiset().contains(x) implies vals.to_multiset().count(x)
        == 1 by {
        assert(tail.to_multiset().count(x) > 0);
    }
    vals.lemma_multiset_has_no_duplicates_conv();
    assert forall|j: int| 0 <= j < vals.len() implies 1 <= (#[trigger] vals[j]) < n by {
        let x = vals[j];
        assert(vals.contains(x)) by {
            assert(vals[j] == x);
        }
        assert(vals.to_multiset().count(x) > 0);
        assert(tail.contains(x));
        let i = choose|i: int| 0 <= i < tail.len() && tail[i] == x;
        assert(tail[i] == (i + 1) as u64);
    }
}

/// Prepending the fixed start index 0 to a permutation of `1..n` yields a
/// permutation of `0..n`.
proof fn lemma_order_multiset(vals: Seq<u64>, n: nat)
    requires
        n >= 1,
        vals.to_multiset() == tail_indices(n).to_multiset(),
    ensures
        (seq![0u64] + vals).to_multiset() == all_indices(n).to_multiset(),
{
    broadcast use vstd::seq_lib::lemma_multiset_commutative;

    assert(all_indices(n) =~= seq![0u64] + tail_indices(n));
    assert((seq![0u64] + vals).to_multiset() == seq![0u64].to_multiset().add(
        vals.to_multiset(),
    ));
    assert((seq![0u64] + tail_indices(n)).to_multiset() == seq![0u64].to_multiset().add(
        tail_indices(n).to_multiset(),
    ));
}

/// Taking one more entry of a prefix keeps everything the shorter prefix held.
proof fn lemma_take_contains_mono(s: Seq<u64>, j: int, x: u64)
    requires
        0 <= j < s.len(),
        s.take(j).contains(x),
    ensures
        s.take(j + 1).contains(x),
{
    let t = choose|t: int| 0 <= t < j && s.take(j)[t] == x;
    assert(s.take(j + 1)[t] == x);
}

/// A flat array of cells forming one cycle: starting at index 0 and following
/// each cell's next-index in turn visits every index exactly once and returns
/// to 0. The ghost `order` records the visit order and is the witness for that
/// cycle shape.
pub struct ArrayList {
    pub list: Vec<Cell>,
    pub order: Ghost<Seq<u64>>,
}

impl View for ArrayList {
    type V = Seq<u64>;

    open spec fn view(&self) -> Seq<u64> {
        self.list@.map_values(|c: Cell| c.next_index)
    }
}

impl ArrayList {
    /// The cycle invariant: `order` starts at 0, each cell on it points at the
    /// next entry, the last cell points back to 0, and `order` holds every
    /// index of the array exactly once.
    pub open spec fn wf(&self) -> bool {
        let n = self@.len() as int;
        let ord = self.order@;
        &&& n <= u64::MAX
        &&& ord.len() == n
        &&& forall|i: int| 0 <= i < n ==> (#[trigger] self@[i]) < n
        &&& forall|k: int| 0 <= k < n ==> (#[trigger] ord[k]) < n
        &&& (n > 0 ==> ord[0] == 0)
        &&& forall|k: int| 0 <= k < n - 1 ==> self@[(#[trigger] ord[k]) as int] == ord[k + 1]
        &&& (n > 0 ==> self@[ord[n - 1] as int] == 0)
        &&& ord.to_multiset() == all_indices(n as nat).to_multiset()
    }

    /// Hop `k` of a well-formed structure lands on the `k`-th entry of the
    /// recorded visit order.
    proof fn lemma_chain_matches_order(self, k: int)
        requires
            self.wf(),
            0 <= k < self@.len(),
        ensures
            chain_at(self@, k as nat) == self.order@[k],
        decreases k,
    {
        if k > 0 {
            self.lemma_chain_matches_order(k - 1);
        }
    }

    /// After visiting all `n` cells the traversal is back at index 0.
    proof fn lemma_chain_closes(self)
        requires
            self.wf(),
            self@.len() > 0,
        ensures
            chain_at(self@, self@.len()) == 0,
    {
        let n = self@.len() as int;
        self.lemma_chain_matches_order(n - 1);
    }

    /// The sum of the first `k + 1` hops equals the sum of the first `k + 1`
    /// entries of the visit order.
    proof fn lemma_chain_sum_matches_order(self, k: int)
        requires
            self.wf(),
            0 <= k < self@.len(),
        ensures
            chain_sum(self@, k as nat) == seq_sum(self.order@.take(k + 1)),
        decreases k,
    {
        if k == 0 {
            assert(self.order@.take(1).drop_last() =~= Seq::<u64>::empty());
            assert(seq_sum(Seq::<u64>::empty()) == 0);
            assert(self.order@.take(1).last() == self.order@[0]);
            assert(seq_sum(self.order@.take(1)) == self.order@[0]);
            assert(chain_sum(self@, 0) == 0);
            assert(self.order@[0] == 0);
        } else {
            self.lemma_chain_sum_matches_order(k - 1);
            self.lemma_chain_matches_order(k);
            assert(self.order@.take(k + 1).drop_last() =~= self.order@.take(k));
            assert(self.order@.take(k + 1).last() == self.order@[k]);
            assert(seq_sum(self.order@.take(k + 1)) == seq_sum(self.order@.take(k))
                + self.order@[k]);
            assert(chain_sum(self@, k as nat) == chain_sum(self@, (k - 1) as nat)
                + chain_at(self@, k as nat));
            assert(chain_at(self@, k as nat) == self.order@[k]);
        }
    }

    /// Permutation invariant: starting at index 0 and following next-index
    /// links exactly `n` times visits each index in `[0, n)` exactly once —
    /// no repeats and no omissions.
    pub proof fn lemma_traversal_is_permutation(self)
        requires
            self.wf(),
        ensures
            visits(self@).no_duplicates(),
            forall|i: int| 0 <= i < self@.len() ==> #[trigger] visits(self@).contains(i as u64),
    {
        broadcast use vstd::seq_lib::group_to_multiset_ensures;

        let n = self@.len() as int;
        let ord = self.order@;
        let idx = all_indices(n as nat);
        assert(idx.no_duplicates()) by {
            assert forall|i: int, j: int| 0 <= i < j < n implies idx[i] != idx[j] by {
                assert(idx[i] == i as u64);
                assert(idx[j] == j as u64);
            }
        }
        idx.lemma_multiset_has_no_duplicates();
        assert forall|x: u64| ord.to_multiset().contains(x) implies ord.to_multiset().count(x)
            == 1 by {
            assert(idx.to_multiset().count(x) > 0);
        }
        ord.lemma_multiset_has_no_duplicates_conv();
        assert forall|k: int| 0 <= k < n implies chain_at(self@, k as nat) == ord[k] by {
            self.lemma_chain_matches_order(k);
        }
        assert(visits(self@) =~= ord);
        assert forall|i: int| 0 <= i < n implies #[trigger] visits(self@).contains(i as u64) by {
            assert(idx.contains(i as u64)) by {
                assert(idx[i] == i as u64);
            }
            assert(ord.to_multiset().count(i as u64) > 0);
            assert(ord.contains(i as u64));
        }
    }

    /// Checksum invariant: one full traversal of a well-formed structure of
    /// size `n` sums exactly to the ground truth `n * (n - 1) / 2`.
    pub proof fn lemma_traversal_checksum(self)
        requires
            self.wf(),
        ensures
            chain_sum(self@, self@.len()) == ground_truth(self@.len()),
    {
        let n = self@.len() as int;
        if n > 0 {
            self.lemma_chain_sum_matches_order(n - 1);
            self.lemma_chain_matches_order(n - 1);
            self.lemma_chain_closes();
            assert(self.order@.take(n) =~= self.order@);
            lemma_seq_sum_permutation(self.order@, all_indices(n as nat));
            lemma_seq_sum_all_indices(n as nat);
        }
    }

    /// Chains the cells of a fresh array into one cycle along `values`, a
    /// permutation of the indices `1, ..., array_size - 1`: starting from
    /// index 0, each visited value becomes the next-index of the previously
    /// visited cell, and the last visited cell keeps 0, closing the cycle.
    pub fn from_permutation(array_size: usize, values: Vec<u64>) -> (r: ArrayList)
        requires
            values@.to_multiset() == tail_indices(array_size as nat).to_multiset(),
        ensures
            r.wf(),
            r@.len() == array_size,
            array_size == 0 ==> r.order@ == Seq::<u64>::empty(),
            array_size > 0 ==> r.order@ == seq![0u64] + values@,
    {
        let n = array_size;
        proof {
            lemma_tail_values_facts(values@, n as nat);
        }
        let mut list: Vec<Cell> = Vec::new();
        let mut i: usize = 0;
        while i < n
            invariant
                i <= n,
                list@.len() == i,
                forall|t: int| 0 <= t < i ==> (#[trigger] list@[t]).next_index == 0,
            decreases n - i,
        {
            list.push(Cell::new(0));
            i += 1;
        }
        let ghost full_order = seq![0u64] + values@;
        proof {
            assert(full_order.no_duplicates()) by {
                assert forall|a: int, b: int|
                    0 <= a < b < full_order.len() implies full_order[a] != full_order[b] by {
                    if a == 0 {
                        assert(full_order[b] == values@[b - 1]);
                        assert(values@[b - 1] >= 1);
                    } else {
                        assert(full_order[a] == values@[a - 1]);
                        assert(full_order[b] == values@[b - 1]);
                    }
                }
            }
        }
        let mut pre_idx: usize = 0;
        let mut j: usize = 0;
        while j < values.len()
            invariant
                values@.to_multiset() == tail_indices(n as nat).to_multiset(),
                values@.no_duplicates(),
                forall|t: int| 0 <= t < values@.len() ==> 1 <= (#[trigger] values@[t]) < n,
                n > 0 ==> values@.len() == n - 1,
                n == 0 ==> values@.len() == 0,
                full_order == seq![0u64] + values@,
                full_order.no_duplicates(),
                list@.len() == n,
                j <= values@.len(),
                pre_idx == full_order[j as int],
                n > 0 ==> pre_idx < n,
                forall|t: int|
                    0 <= t < j ==> list@[(#[trigger] full_order[t]) as int].next_index
                        == full_order[t + 1],
                forall|c: int|
                    0 <= c < n && !full_order.take(j as int).contains(c as u64) ==> (
                    #[trigger] list@[c]).next_index == 0,
            decreases values@.len() - j,
        {
            let ghost prev_list = list@;
            let v = values[j];
            list[pre_idx].set(v);
            proof {
                assert(list@ == prev_list.update(pre_idx as int, list@[pre_idx as int]));
                assert(list@[pre_idx as int].next_index == v);
                assert(full_order[j as int] == pre_idx);
                assert(full_order[j + 1] == values@[j as int]);
                assert(full_order.take(j + 1) =~= full_order.take(j as int).push(
                    full_order[j as int],
                ));
                assert forall|t: int|
                    0 <= t < j + 1 implies list@[(#[trigger] full_order[t]) as int].next_index
                    == full_order[t + 1] by {
                    if t < j {
                        assert(full_order[t] != full_order[j as int]);
                        assert(prev_list[full_order[t] as int].next_index == full_order[t + 1]);
                    }
                }
                assert forall|c: int|
                    0 <= c < n && !full_order.take(j + 1).contains(c as u64) implies (
                #[trigger] list@[c]).next_index == 0 by {
                    assert(!full_order.take(j as int).contains(c as u64)) by {
                        if full_order.take(j as int).contains(c as u64) {
                            lemma_take_contains_mono(full_order, j as int, c as u64);
                        }
                    }
                    assert(c != pre_idx) by {
                        assert(full_order.take(j + 1)[j as int] == full_order[j as int]);
                    }
                }
            }
            pre_idx = v as usize;
            j += 1;
        }
        let ghost ord = if n == 0 {
            Seq::<u64>::empty()
        } else {
            full_order
        };
        let r = ArrayList { list, order: Ghost(ord) };
        proof {
            if n == 0 {
                assert(r@ =~= Seq::<u64>::empty());
                assert(all_indices(0) =~= Seq::<u64>::empty());
                assert(ord.to_multiset() == all_indices(0).to_multiset());
            } else {
                assert(r@.len() == n);
                assert(ord.len() == n);
                lemma_order_multiset(values@, n as nat);
                // the cell where the walk ends still holds 0, closing the cycle
                assert(!full_order.take(n - 1).contains(full_order[n - 1])) by {
                    if full_order.take(n - 1).contains(full_order[n - 1]) {
                        let last = full_order[n - 1];
                        let t = choose|t: int|
                            0 <= t < n - 1 && #[trigger] full_order.take(n - 1)[t] == last;
                        assert(full_order[t] == full_order[n - 1]);
                    }
                }
                assert(r@[ord[n - 1] as int] == 0);
                // every cell holds an index below n
                assert forall|c: int| 0 <= c < n implies (#[trigger] r@[c]) < n by {
                    if full_order.take(n - 1).contains(c as u64) {
                        let t = choose|t: int|
                            0 <= t < n - 1 && #[trigger] full_order.take(n - 1)[t] == c as u64;
                        assert(full_order[t] == c as u64);
                        assert(list@[full_order[t] as int].next_index == full_order[t + 1]);
                        assert(full_order[t + 1] == values@[t]);
                    }
                }
                // every entry of the visit order is an index below n
                assert forall|k: int| 0 <= k < n implies (#[trigger] ord[k]) < n by {
                    if k > 0 {
                        assert(ord[k] == values@[k - 1]);
                    }
                }
            }
            assert(r.wf());
        }
        r
    }

    /// Builds a structure of `array_size` cells chained into a single cycle
    /// along a uniformly random permutation of the indices `1..array_size`.
    pub fn new(array_size: usize) -> (r: ArrayList)
        ensures
            r.wf(),
            r@.len() == array_size,
    {
        let mut values: Vec<u64> = Vec::new();
        let mut i: usize = 1;
        while i < array_size
            invariant
                array_size == 0 ==> i == 1 && values@.len() == 0,
                array_size >= 1 ==> 1 <= i <= array_size && values@ == tail_indices(
                    array_size as nat,
                ).take(i - 1),
            decreases array_size - i,
        {
            proof {
                assert(tail_indices(array_size as nat).take(i as int) =~= tail_indices(
                    array_size as nat,
                ).take(i - 1).push(i as u64));
            }
            values.push(i as u64);
            i += 1;
        }
        proof {
            assert(values@ =~= tail_indices(array_size as nat));
        }
        shuffle_values(&mut values);
        Self::from_permutation(array_size, values)
    }

    /// The next-index stored at `index`.
    pub fn lookup(&self, index: usize) -> (r: u64)
        requires
            index < self@.len(),
        ensures
            r == self@[index as int],
    {
        self.list[index].get()
    }

    /// The closed-form checksum that one full traversal must produce.
    pub fn ground_truth_sum(&self) -> (r: u64)
        requires
            ground_truth(self@.len()) <= u64::MAX,
        ensures
            r == ground_truth(self@.len()),
    {
        let n = self.list.len();
        proof {
            lemma_ground_truth_closed_form(n as nat);
        }
        if n == 0 {
            0u64
        } else if n % 2 == 0 {
            let h = n / 2;
            assert(2 * (h * (n - 1)) == n * (n - 1)) by (nonlinear_arith)
                requires
                    2 * h == n,
            ;
            (h as u64) * ((n - 1) as u64)
        } else {
            let h = (n - 1) / 2;
            assert(2 * (n * h) == n * (n - 1)) by (nonlinear_arith)
                requires
                    2 * h == n - 1,
            ;
            (n as u64) * (h as u64)
        }
    }
}

} // verus!
