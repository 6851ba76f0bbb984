//! A priority queue that ranks each value once, when it is pushed.
use vstd::prelude::*;

verus! {

/// A key that a queue can order by: it maps to an integer rank.
pub trait Rank {
    /// The rank of the key. Larger ranks leave the queue first.
    spec fn rank(&self) -> int;

    /// Whether this key ranks strictly above `other`.
    fn outranks(&self, other: &Self) -> (b: bool)
        ensures
            b == (self.rank() > other.rank()),
    ;
}

impl Rank for u64 {
    open spec fn rank(&self) -> int {
        *self as int
    }

    fn outranks(&self, other: &Self) -> (b: bool) {
        *self > *other
    }
}

/// A missing number ranks below every number.
impl Rank for Option<u64> {
    open spec fn rank(&self) -> int {
        match *self {
            Some(n) => n as int,
            None => -1,
        }
    }

    fn outranks(&self, other: &Self) -> (b: bool) {
        match (self, other) {
            (Some(a), Some(b)) => *a > *b,
            (Some(_), None) => true,
            (None, _) => false,
        }
    }
}

/// A function from values to the keys that a queue orders them by.
pub trait KeyFn<T, U> {
    /// The key of `value`.
    spec fn key_of(&self, value: &T) -> U;

    /// Computes the key of `value`.
    fn key(&self, value: &T) -> (k: U)
        ensures
            k == self.key_of(value),
    ;
}

/// Whether `ranks` never descends.
pub open spec fn ascending(ranks: Seq<int>) -> bool {
    forall|i: int, j: int| 0 <= i < j < ranks.len() ==> ranks[i] <= ranks[j]
}

/// Where a value of rank `r` enters a queue whose values have `ranks`: above
/// every value of lower rank, below every value of the same or a higher rank.
pub open spec fn insert_position(ranks: Seq<int>, r: int) -> int
    decreases ranks.len(),
{
    if ranks.len() == 0 {
        0
    } else if ranks.last() < r {
        ranks.len() as int
    } else {
        insert_position(ranks.drop_last(), r)
    }
}

/// The insert position splits an ascending sequence into the lower ranks and the rest.
pub proof fn lemma_insert_position(ranks: Seq<int>, r: int)
    requires
        ascending(ranks),
    ensures
        0 <= insert_position(ranks, r) <= ranks.len(),
        forall|i: int| 0 <= i < insert_position(ranks, r) ==> ranks[i] < r,
        forall|i: int| insert_position(ranks, r) <= i < ranks.len() ==> ranks[i] >= r,
        ascending(ranks.insert(insert_position(ranks, r), r)),
    decreases ranks.len(),
{
    let p = insert_position(ranks, r);
    if ranks.len() == 0 {
    } else if ranks.last() < r {
        assert forall|i: int| 0 <= i < p implies ranks[i] < r by {
            assert(ranks[i] <= ranks[ranks.len() - 1]);
        }
    } else {
        let front = ranks.drop_last();
        assert forall|i: int, j: int| 0 <= i < j < front.len() implies front[i] <= front[j] by {
            assert(front[i] == ranks[i] && front[j] == ranks[j]);
        }
        lemma_insert_position(front, r);
        assert forall|i: int| 0 <= i < p implies ranks[i] < r by {
            assert(front[i] == ranks[i]);
        }
        assert forall|i: int| p <= i < ranks.len() implies ranks[i] >= r by {
            if i < front.len() {
                assert(front[i] == ranks[i]);
            }
        }
    }
    let out = ranks.insert(p, r);
    assert forall|i: int, j: int| 0 <= i < j < out.len() implies out[i] <= out[j] by {
        if j < p {
            assert(out[i] == ranks[i] && out[j] == ranks[j]);
        } else if j == p {
            assert(out[i] == ranks[i]);
        } else if i < p {
            assert(out[i] == ranks[i] && out[j] == ranks[j - 1]);
        } else if i == p {
            assert(out[j] == ranks[j - 1]);
        } else {
            assert(out[i] == ranks[i - 1] && out[j] == ranks[j - 1]);
        }
    }
}

struct QueueItem<T, U> {
    value: T,
    ord: U,
}

/// A queue of values that hands out a value of the highest rank first, and of
/// equal ranks the one that was pushed first.
pub struct PriorityQueue<T, U, K> {
    heap: Vec<QueueItem<T, U>>,
    to_ord: K,
}

impl<T, U: Rank, K: KeyFn<T, U>> PriorityQueue<T, U, K> {
    /// The values in the queue, the next to leave last.
    pub closed spec fn items(&self) -> Seq<T> {
        Seq::new(self.heap@.len(), |i: int| self.heap@[i].value)
    }

    /// The function that ranks the values.
    pub closed spec fn key_fn(&self) -> K {
        self.to_ord
    }

    /// The rank of `value` in this queue.
    pub open spec fn rank_of(&self, value: T) -> int {
        self.key_fn().key_of(&value).rank()
    }

    /// The ranks of the values in the queue.
    pub open spec fn ranks(&self) -> Seq<int> {
        Seq::new(self.items().len(), |i: int| self.rank_of(self.items()[i]))
    }

    /// The invariant of the queue: ranks ascend, and each cached key is the
    /// key of its value.
    pub closed spec fn wf(&self) -> bool {
        &&& ascending(self.ranks())
        &&& forall|i: int|
            0 <= i < self.heap@.len() ==> (#[trigger] self.heap@[i]).ord == self.to_ord.key_of(
                &self.heap@[i].value,
            )
    }

    /// In a queue that meets its invariant the ranks ascend.
    pub proof fn lemma_ranks_ascend(&self)
        requires
            self.wf(),
        ensures
            ascending(self.ranks()),
    {
    }

    /// An empty queue that ranks its values by `to_ord`.
    pub fn new(to_ord: K) -> (q: Self)
        ensures
            q.wf(),
            q.items() == Seq::<T>::empty(),
            q.key_fn() == to_ord,
    {
        let q = PriorityQueue { heap: Vec::new(), to_ord };
        assert(q.items() =~= Seq::<T>::empty());
        q
    }

    /// The number of values in the queue.
    pub fn len(&self) -> (n: usize)
        ensures
            n == self.items().len(),
    {
        self.heap.len()
    }

    /// Adds `value`, ranked by its key at this moment.
    pub fn push(&mut self, value: T)
        requires
            old(self).wf(),
        ensures
            final(self).wf(),
            final(self).key_fn() == old(self).key_fn(),
            final(self).items() == old(self).items().insert(
                insert_position(old(self).ranks(), old(self).rank_of(value)),
                value,
            ),
    {
        let ord = self.to_ord.key(&value);
        let ghost ranks = self.ranks();
        let ghost r = self.rank_of(value);
        let mut k = self.heap.len();
        assert(ranks.take(k as int) =~= ranks);
        while k > 0 && !ord.outranks(&self.heap[k - 1].ord)
            invariant
                k <= self.heap@.len(),
                self.wf(),
                ranks == self.ranks(),
                r == ord.rank(),
                insert_position(ranks, r) == insert_position(ranks.take(k as int), r),
            decreases k,
        {
            proof {
                let t = ranks.take(k as int);
                assert(t.drop_last() =~= ranks.take(k - 1));
                assert(t.last() == ranks[k - 1]);
                assert(self.heap@[k - 1].ord == self.to_ord.key_of(&self.heap@[k - 1].value));
            }
            k -= 1;
        }
        proof {
            if k > 0 {
                let t = ranks.take(k as int);
                assert(t.last() == ranks[k - 1]);
                assert(self.heap@[k - 1].ord == self.to_ord.key_of(&self.heap@[k - 1].value));
            }
            lemma_insert_position(ranks, r);
        }
        self.heap.insert(k, QueueItem { value, ord });
        proof {
            assert(self.items() =~= old(self).items().insert(k as int, value));
            assert(self.ranks() =~= ranks.insert(k as int, r));
        }
    }

    /// Removes and returns the value of the highest rank, if the queue holds any.
    pub fn pop(&mut self) -> (r: Option<T>)
        requires
            old(self).wf(),
        ensures
            final(self).wf(),
            final(self).key_fn() == old(self).key_fn(),
            match r {
                Some(value) => {
                    &&& old(self).items().len() > 0
                    &&& value == old(self).items().last()
                    &&& final(self).items() == old(self).items().drop_last()
                    &&& forall|i: int|
                        0 <= i < old(self).items().len() ==> old(self).rank_of(
                            #[trigger] old(self).items()[i],
                        ) <= old(self).rank_of(value)
                },
                None => old(self).items().len() == 0 && final(self).items() == old(self).items(),
            },
    {
        let ghost ranks = self.ranks();
        match self.heap.pop() {
            None => None,
            Some(item) => {
                proof {
                    assert(self.items() =~= old(self).items().drop_last());
                    assert(self.ranks() =~= ranks.drop_last());
                    assert forall|i: int| 0 <= i < old(self).items().len() implies old(
                        self,
                    ).rank_of(#[trigger] old(self).items()[i]) <= old(self).rank_of(
                        item.value,
                    ) by {
                        assert(ranks[i] <= ranks[ranks.len() - 1]);
                    }
                }
                Some(item.value)
            },
        }
    }
}

} // verus!
