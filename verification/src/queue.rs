//! The coordinator's shared collections: the FIFO queue of pending
//! work and the append-only set of completed work.
//!
//! The surrounding application serialises access with one lock per
//! structure; the contracts here say what each exclusive operation
//! does, so any interleaving of locked calls dequeues every item
//! exactly once and loses no completed result.

use vstd::prelude::*;

verus! {

/// One unit of assignable computation.
pub struct WorkItem {
    pub payload: Vec<u8>,
    pub result: Option<u64>,
}

/// What a [`WorkItem`] holds.
pub struct ItemModel {
    pub payload: Seq<u8>,
    pub result: Option<u64>,
}

impl View for WorkItem {
    type V = ItemModel;

    open spec fn view(&self) -> ItemModel {
        ItemModel { payload: self.payload@, result: self.result }
    }
}

/// Shared, ordered, mutable: items come out in the order they went in,
/// and a dequeue removes its item for good.
pub struct WorkQueue {
    items: Vec<WorkItem>,
}

impl View for WorkQueue {
    type V = Seq<ItemModel>;

    closed spec fn view(&self) -> Seq<ItemModel> {
        Seq::new(self.items@.len(), |i: int| self.items@[i]@)
    }
}

impl WorkQueue {
    pub fn new() -> (q: WorkQueue)
        ensures
            q@ == Seq::<ItemModel>::empty(),
    {
        let q = WorkQueue { items: Vec::new() };
        proof {
            assert(q@ =~= Seq::<ItemModel>::empty());
        }
        q
    }

    pub fn len(&self) -> (n: usize)
        ensures
            n == self@.len(),
    {
        self.items.len()
    }

    /// Appends one item at the back.
    pub fn enqueue(&mut self, item: WorkItem)
        ensures
            final(self)@ == old(self)@.push(item@),
    {
        let ghost m = item@;
        self.items.push(item);
        proof {
            assert(self@ =~= old(self)@.push(m));
        }
    }

    /// Removes and returns the front item; `None` on an empty queue.
    /// The returned item is gone from the queue, so no two callers can
    /// ever receive the same item.
    pub fn dequeue(&mut self) -> (r: Option<WorkItem>)
        ensures
            old(self)@.len() == 0 ==> (r matches Option::None) && final(self)@ == old(self)@,
            old(self)@.len() > 0 ==> (r matches Option::Some(it) && it@ == old(self)@[0])
                && final(self)@ == old(self)@.drop_first(),
    {
        if self.items.len() == 0 {
            return None;
        }
        let item = self.items.remove(0);
        proof {
            assert(self@ =~= old(self)@.drop_first());
        }
        Some(item)
    }
}

/// The multiset split of a queue after `n` dequeues: the first `n`
/// items went to the dequeuers, each exactly once, and together with
/// the remainder they are exactly the original queue.
///
/// [`WorkQueue::dequeue`] hands out `q0[0]`, then `q0[1]`, and so on,
/// and removes each handed-out item; so after any `n` exclusive
/// dequeues, by however many concurrent dequeuers, the items received
/// are precisely `q0.take(n)` — no item twice, no item lost.
pub proof fn lemma_dequeue_exactly_once(q0: Seq<ItemModel>, n: int)
    requires
        0 <= n <= q0.len(),
    ensures
        q0.take(n) + q0.skip(n) == q0,
        q0.take(n).to_multiset().add(q0.skip(n).to_multiset()) == q0.to_multiset(),
{
    assert(q0.take(n) + q0.skip(n) =~= q0);
    vstd::seq_lib::lemma_multiset_commutative(q0.take(n), q0.skip(n));
}

/// The value a completed item carries; zero stands in for a missing one.
pub open spec fn result_val(it: ItemModel) -> int {
    match it.result {
        Option::Some(v) => v as int,
        Option::None => 0,
    }
}

/// The results of a batch of completed items, summed.
pub open spec fn sum_results(s: Seq<ItemModel>) -> int
    decreases s.len(),
{
    if s.len() == 0 {
        0
    } else {
        sum_results(s.drop_last()) + result_val(s.last())
    }
}

proof fn lemma_sum_results_take_succ(s: Seq<ItemModel>, i: int)
    requires
        0 <= i < s.len(),
    ensures
        sum_results(s.take(i + 1)) == sum_results(s.take(i)) + result_val(s[i]),
{
    assert(s.take(i + 1).drop_last() =~= s.take(i));
    assert(s.take(i + 1).last() == s[i]);
}

proof fn lemma_sum_results_ge_take(s: Seq<ItemModel>, i: int)
    requires
        0 <= i <= s.len(),
        forall|j: int| 0 <= j < s.len() ==> result_val(#[trigger] s[j]) >= 0,
    ensures
        sum_results(s) >= sum_results(s.take(i)),
    decreases s.len() - i,
{
    if i == s.len() {
        assert(s.take(i) =~= s);
    } else {
        lemma_sum_results_take_succ(s, i);
        lemma_sum_results_ge_take(s, i + 1);
    }
}

/// Shared and append-only: completed items go in and are never removed.
pub struct CompletedSet {
    items: Vec<WorkItem>,
}

impl View for CompletedSet {
    type V = Seq<ItemModel>;

    closed spec fn view(&self) -> Seq<ItemModel> {
        Seq::new(self.items@.len(), |i: int| self.items@[i]@)
    }
}

impl CompletedSet {
    /// Every item in the set carries a result.
    pub open spec fn wf(&self) -> bool {
        forall|i: int| 0 <= i < self@.len() ==> (#[trigger] self@[i]).result matches Option::Some(
            _,
        )
    }

    pub fn new() -> (s: CompletedSet)
        ensures
            s.wf(),
            s@ == Seq::<ItemModel>::empty(),
    {
        let s = CompletedSet { items: Vec::new() };
        proof {
            assert(s@ =~= Seq::<ItemModel>::empty());
        }
        s
    }

    pub fn len(&self) -> (n: usize)
        ensures
            n == self@.len(),
    {
        self.items.len()
    }

    /// Appends one completed item.
    pub fn add(&mut self, item: WorkItem)
        requires
            old(self).wf(),
            item.result matches Option::Some(_),
        ensures
            final(self).wf(),
            final(self)@ == old(self)@.push(item@),
    {
        let ghost m = item@;
        self.items.push(item);
        proof {
            assert(self@ =~= old(self)@.push(m));
        }
    }

    /// Sums all recorded results, or `None` exactly when the sum does
    /// not fit an unsigned 64-bit count.
    pub fn total(&self) -> (r: Option<u64>)
        ensures
            (match r {
                Some(t) => t as int == sum_results(self@),
                None => sum_results(self@) > u64::MAX,
            }),
    {
        let mut total: u64 = 0;
        let mut i: usize = 0;
        proof {
            assert(self@.take(0) =~= Seq::<ItemModel>::empty());
            assert forall|j: int| 0 <= j < self@.len() implies result_val(#[trigger] self@[j])
                >= 0 by {}
        }
        while i < self.items.len()
            invariant
                i <= self@.len(),
                self@.len() == self.items@.len(),
                total as int == sum_results(self@.take(i as int)),
                forall|j: int| 0 <= j < self@.len() ==> result_val(#[trigger] self@[j]) >= 0,
            decreases self@.len() - i,
        {
            let v: u64 = match self.items[i].result {
                Some(v) => v,
                None => 0,
            };
            proof {
                assert(result_val(self@[i as int]) == v as int);
                lemma_sum_results_take_succ(self@, i as int);
            }
            if total > u64::MAX - v {
                proof {
                    lemma_sum_results_ge_take(self@, i as int + 1);
                }
                return None;
            }
            total = total + v;
            i = i + 1;
        }
        proof {
            assert(self@.take(self@.len() as int) =~= self@);
        }
        Some(total)
    }
}

/// Builds the initial queue from the dataset: one single-value item
/// per dataset entry, none of them carrying a result yet. Returns the
/// queue and the number of items in it.
pub fn prepare_work_queue(data: Vec<u8>) -> (r: (WorkQueue, usize))
    ensures
        r.1 == data@.len(),
        r.0@.len() == data@.len(),
        forall|i: int|
            0 <= i < data@.len() ==> (#[trigger] r.0@[i]).payload == seq![data@[i]] && r.0@[
                i
            ].result matches Option::None,
{
    let mut queue = WorkQueue::new();
    let mut i: usize = 0;
    while i < data.len()
        invariant
            i <= data@.len(),
            queue@.len() == i,
            forall|j: int|
                0 <= j < i ==> (#[trigger] queue@[j]).payload == seq![data@[j]] && queue@[
                    j
                ].result matches Option::None,
        decreases data@.len() - i,
    {
        let mut payload: Vec<u8> = Vec::new();
        payload.push(data[i]);
        proof {
            assert(payload@ =~= seq![data@[i as int]]);
        }
        queue.enqueue(WorkItem { payload, result: None });
        i = i + 1;
    }
    let count: usize = queue.len();
    (queue, count)
}

} // verus!
