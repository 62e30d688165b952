//! Queues and values that are found by a key.
use vstd::prelude::*;

verus! {

/// What a queue can be found by.
pub trait TableKey: View + Sized {
    /// Whether two keys are the same.
    fn same_key(&self, other: &Self) -> (r: bool)
        ensures
            r == (self@ == other@),
    ;
}

/// One queue of the table.
struct Queue<K, T> {
    key: K,
    items: Vec<T>,
}

/// A queue for each key. A key whose queue is empty is not in the table.
pub struct KeyedQueues<K: TableKey, T> {
    queues: Vec<Queue<K, T>>,
}

impl<K: TableKey, T> KeyedQueues<K, T> {
    spec fn key_at(&self, i: int) -> K::V {
        self.queues@[i].key@
    }

    spec fn holds_key(&self, i: int, key: K::V) -> bool {
        0 <= i < self.queues@.len() && self.key_at(i) == key
    }

    /// No two queues have the same key, and none is empty.
    pub closed spec fn valid(&self) -> bool {
        &&& forall|i: int, j: int|
            0 <= i < j < self.queues@.len() ==> #[trigger] self.key_at(i) != #[trigger] self.key_at(
                j,
            )
        &&& forall|i: int| 0 <= i < self.queues@.len() ==> (#[trigger] self.queues@[i]).items@.len() > 0
    }

    /// The items that wait under a key, the oldest first.
    pub closed spec fn waiting(&self, key: K::V) -> Seq<T> {
        if exists|i: int| self.holds_key(i, key) {
            self.queues@[choose|i: int| self.holds_key(i, key)].items@
        } else {
            seq![]
        }
    }

    proof fn lemma_waiting_at(&self, i: int)
        requires
            self.valid(),
            0 <= i < self.queues@.len(),
        ensures
            self.waiting(self.key_at(i)) == self.queues@[i].items@,
    {
        let key = self.key_at(i);
        assert(self.holds_key(i, key));
        let j = choose|j: int| self.holds_key(j, key);
        assert(self.key_at(j) == self.key_at(i));
    }

    proof fn lemma_waiting_nothing(&self, key: K::V)
        requires
            forall|i: int| 0 <= i < self.queues@.len() ==> self.key_at(i) != key,
        ensures
            self.waiting(key) == Seq::<T>::empty(),
    {
        if exists|i: int| self.holds_key(i, key) {
            let i = choose|i: int| self.holds_key(i, key);
            assert(self.key_at(i) == key);
        }
    }

    /// A table without queues.
    pub fn new() -> (r: Self)
        ensures
            r.valid(),
            forall|key: K::V| #[trigger] r.waiting(key) == Seq::<T>::empty(),
    {
        let r = KeyedQueues { queues: Vec::new() };
        assert forall|key: K::V| #[trigger] r.waiting(key) == Seq::<T>::empty() by {
            r.lemma_waiting_nothing(key);
        }
        r
    }

    fn find(&self, key: &K) -> (r: Option<usize>)
        ensures
            match r {
                Some(i) => i < self.queues@.len() && self.key_at(i as int) == key@,
                None => forall|i: int|
                    0 <= i < self.queues@.len() ==> #[trigger] self.key_at(i) != key@,
            },
    {
        let mut i: usize = 0;
        while i < self.queues.len()
            invariant
                i <= self.queues@.len(),
                forall|j: int| 0 <= j < i ==> #[trigger] self.key_at(j) != key@,
            decreases self.queues@.len() - i,
        {
            if self.queues[i].key.same_key(key) {
                assert(self.key_at(i as int) == key@);
                return Some(i);
            }
            assert(self.key_at(i as int) != key@);
            i = i + 1;
        }
        None
    }

    /// Puts an item behind those that wait under the key.
    pub fn push_back(&mut self, key: K, item: T)
        requires
            old(self).valid(),
        ensures
            final(self).valid(),
            final(self).waiting(key@) == old(self).waiting(key@).push(item),
            forall|other: K::V|
                other != key@ ==> #[trigger] final(self).waiting(other) == old(self).waiting(other),
    {
        let ghost before = *self;
        match self.find(&key) {
            Some(i) => {
                self.queues[i].items.push(item);
                proof {
                    let n = i as int;
                    assert forall|j: int| 0 <= j < self.queues@.len() implies #[trigger] self.key_at(
                        j,
                    ) == before.key_at(j) by {}
                    before.lemma_waiting_at(n);
                    assert(self.valid());
                    self.lemma_waiting_at(n);
                    assert forall|other: K::V| other != key@ implies #[trigger] self.waiting(other)
                        == before.waiting(other) by {
                        self.lemma_same_elsewhere(&before, other, n);
                    }
                }
            },
            None => {
                let mut items: Vec<T> = Vec::new();
                items.push(item);
                self.queues.push(Queue { key, items });
                proof {
                    let n = before.queues@.len() as int;
                    assert(self.key_at(n) == key@);
                    assert forall|j: int| 0 <= j < n implies #[trigger] self.key_at(j)
                        == before.key_at(j) by {}
                    before.lemma_waiting_nothing(key@);
                    assert(self.valid());
                    self.lemma_waiting_at(n);
                    assert(self.queues@[n].items@ =~= Seq::<T>::empty().push(item));
                    assert forall|other: K::V| other != key@ implies #[trigger] self.waiting(other)
                        == before.waiting(other) by {
                        self.lemma_one_more(&before, other);
                    }
                }
            },
        }
    }

    proof fn lemma_same_elsewhere(&self, before: &Self, other: K::V, n: int)
        requires
            self.valid(),
            before.valid(),
            0 <= n < before.queues@.len(),
            self.queues@.len() == before.queues@.len(),
            forall|j: int|
                0 <= j < self.queues@.len() ==> #[trigger] self.key_at(j) == before.key_at(j),
            forall|j: int|
                0 <= j < self.queues@.len() && j != n ==> #[trigger] self.queues@[j]
                    == before.queues@[j],
            before.key_at(n) != other,
        ensures
            self.waiting(other) == before.waiting(other),
    {
        if exists|i: int| before.holds_key(i, other) {
            let i = choose|i: int| before.holds_key(i, other);
            assert(self.key_at(i) == other);
            before.lemma_waiting_at(i);
            self.lemma_waiting_at(i);
        } else {
            assert forall|i: int| 0 <= i < before.queues@.len() implies before.key_at(i) != other by {
                if before.key_at(i) == other {
                    assert(before.holds_key(i, other));
                }
            }
            before.lemma_waiting_nothing(other);
            assert forall|i: int| 0 <= i < self.queues@.len() implies self.key_at(i) != other by {
                assert(before.key_at(i) != other);
            }
            self.lemma_waiting_nothing(other);
        }
    }

    /// One queue more, at the end, under another key.
    proof fn lemma_one_more(&self, before: &Self, other: K::V)
        requires
            self.valid(),
            before.valid(),
            self.queues@.len() == before.queues@.len() + 1,
            forall|j: int|
                0 <= j < before.queues@.len() ==> #[trigger] self.queues@[j] == before.queues@[j],
            self.key_at(before.queues@.len() as int) != other,
        ensures
            self.waiting(other) == before.waiting(other),
    {
        assert forall|j: int| 0 <= j < before.queues@.len() implies #[trigger] self.key_at(j)
            == before.key_at(j) by {
            assert(self.queues@[j] == before.queues@[j]);
        }
        if exists|i: int| before.holds_key(i, other) {
            let i = choose|i: int| before.holds_key(i, other);
            assert(self.key_at(i) == other);
            before.lemma_waiting_at(i);
            self.lemma_waiting_at(i);
            assert(self.queues@[i] == before.queues@[i]);
        } else {
            assert forall|i: int| 0 <= i < before.queues@.len() implies before.key_at(i) != other by {
                if before.key_at(i) == other {
                    assert(before.holds_key(i, other));
                }
            }
            before.lemma_waiting_nothing(other);
            assert forall|i: int| 0 <= i < self.queues@.len() implies self.key_at(i) != other by {
                if i < before.queues@.len() {
                    assert(before.key_at(i) != other);
                }
            }
            self.lemma_waiting_nothing(other);
        }
    }

    /// Whether nothing waits under any key.
    pub fn is_empty(&self) -> (r: bool)
        requires
            self.valid(),
        ensures
            r == forall|key: K::V| #[trigger] self.waiting(key).len() == 0,
    {
        proof {
            if self.queues@.len() > 0 {
                self.lemma_waiting_at(0);
                assert(self.waiting(self.key_at(0)).len() > 0);
            } else {
                assert forall|key: K::V| #[trigger] self.waiting(key).len() == 0 by {
                    self.lemma_waiting_nothing(key);
                }
            }
        }
        self.queues.len() == 0
    }

    /// The item that has waited longest under the key.
    pub fn front(&self, key: &K) -> (r: Option<&T>)
        requires
            self.valid(),
        ensures
            match r {
                Some(item) => self.waiting(key@).len() > 0 && *item == self.waiting(key@)[0],
                None => self.waiting(key@).len() == 0,
            },
    {
        match self.find(key) {
            Some(i) => {
                proof {
                    self.lemma_waiting_at(i as int);
                }
                Some(&self.queues[i].items[0])
            },
            None => {
                proof {
                    self.lemma_waiting_nothing(key@);
                }
                None
            },
        }
    }

    /// Takes the item that has waited longest under the key.
    pub fn pop_front(&mut self, key: &K) -> (r: Option<T>)
        requires
            old(self).valid(),
        ensures
            final(self).valid(),
            match r {
                Some(item) => old(self).waiting(key@).len() > 0 && item == old(self).waiting(
                    key@,
                )[0] && final(self).waiting(key@) == old(self).waiting(key@).drop_first(),
                None => old(self).waiting(key@).len() == 0 && *final(self) == *old(self),
            },
            forall|other: K::V|
                other != key@ ==> #[trigger] final(self).waiting(other) == old(self).waiting(other),
    {
        let ghost before = *self;
        match self.find(key) {
            Some(i) => {
                proof {
                    before.lemma_waiting_at(i as int);
                }
                let item = self.queues[i].items.remove(0);
                if self.queues[i].items.len() == 0 {
                    let ghost between = *self;
                    self.queues.remove(i);
                    proof {
                        lemma_queue_gone(self, &before, i as int);
                        assert(between.queues@[i as int].items@ =~= before.waiting(
                            key@,
                        ).drop_first());
                        assert(before.waiting(key@).drop_first() =~= Seq::<T>::empty());
                    }
                } else {
                    proof {
                        let n = i as int;
                        assert forall|j: int|
                            0 <= j < self.queues@.len() implies #[trigger] self.key_at(j)
                            == before.key_at(j) by {}
                        assert(self.valid());
                        self.lemma_waiting_at(n);
                        assert(self.queues@[n].items@ =~= before.waiting(key@).drop_first());
                        assert forall|other: K::V| other != key@ implies #[trigger] self.waiting(
                            other,
                        ) == before.waiting(other) by {
                            self.lemma_same_elsewhere(&before, other, n);
                        }
                    }
                }
                Some(item)
            },
            None => {
                proof {
                    before.lemma_waiting_nothing(key@);
                }
                None
            },
        }
    }
}

/// One value at most for each key.
pub struct KeyTable<K: TableKey, V> {
    values: KeyedQueues<K, V>,
}

impl<K: TableKey, V> KeyTable<K, V> {
    /// No key has more than one value.
    pub closed spec fn valid(&self) -> bool {
        &&& self.values.valid()
        &&& forall|key: K::V| #[trigger] self.values.waiting(key).len() <= 1
    }

    /// The value of a key.
    pub closed spec fn at(&self, key: K::V) -> Option<V> {
        if self.values.waiting(key).len() > 0 {
            Some(self.values.waiting(key)[0])
        } else {
            None
        }
    }

    /// A table without values.
    pub fn new() -> (r: Self)
        ensures
            r.valid(),
            forall|key: K::V| #[trigger] r.at(key) is None,
    {
        KeyTable { values: KeyedQueues::new() }
    }

    /// The value of a key.
    pub fn get(&self, key: &K) -> (r: Option<&V>)
        requires
            self.valid(),
        ensures
            match r {
                Some(value) => self.at(key@) == Some(*value),
                None => self.at(key@) is None,
            },
    {
        self.values.front(key)
    }

    /// Takes the value of a key away.
    pub fn remove(&mut self, key: &K) -> (r: Option<V>)
        requires
            old(self).valid(),
        ensures
            final(self).valid(),
            r == old(self).at(key@),
            final(self).at(key@) is None,
            forall|other: K::V|
                other != key@ ==> #[trigger] final(self).at(other) == old(self).at(other),
    {
        let ghost before = *self;
        let r = self.values.pop_front(key);
        proof {
            assert(before.values.waiting(key@).len() <= 1);
            assert forall|other: K::V| #[trigger] self.values.waiting(other).len() <= 1 by {
                assert(before.values.waiting(other).len() <= 1);
            }
            assert forall|other: K::V| other != key@ implies #[trigger] self.at(other)
                == before.at(other) by {
                assert(self.values.waiting(other) == before.values.waiting(other));
            }
        }
        r
    }

    /// Gives a key a value, in place of the one that it had.
    pub fn insert(&mut self, key: K, value: V)
        requires
            old(self).valid(),
        ensures
            final(self).valid(),
            final(self).at(key@) == Some(value),
            forall|other: K::V|
                other != key@ ==> #[trigger] final(self).at(other) == old(self).at(other),
    {
        let ghost before = *self;
        self.remove(&key);
        let ghost between = *self;
        self.values.push_back(key, value);
        proof {
            assert(between.at(key@) is None);
            assert(self.values.waiting(key@) =~= seq![value]);
            assert forall|other: K::V| #[trigger] self.values.waiting(other).len() <= 1 by {
                if other != key@ {
                    assert(between.values.waiting(other).len() <= 1);
                }
            }
            assert forall|other: K::V| other != key@ implies #[trigger] self.at(other)
                == before.at(other) by {
                assert(self.values.waiting(other) == between.values.waiting(other));
                assert(between.at(other) == before.at(other));
            }
        }
    }

    /// Whether no key has a value.
    pub fn is_empty(&self) -> (r: bool)
        requires
            self.valid(),
        ensures
            r == forall|key: K::V| #[trigger] self.at(key) is None,
    {
        proof {
            if forall|key: K::V| #[trigger] self.at(key) is None {
                assert forall|key: K::V| #[trigger] self.values.waiting(key).len() == 0 by {
                    assert(self.at(key) is None);
                }
            } else {
                let key = choose|key: K::V| !(#[trigger] self.at(key) is None);
                assert(self.values.waiting(key).len() > 0);
            }
        }
        self.values.is_empty()
    }
}

/// Without the queue at `n` nothing waits under its key, and the same under the others.
proof fn lemma_queue_gone<K: TableKey, T>(
    after: &KeyedQueues<K, T>,
    before: &KeyedQueues<K, T>,
    n: int,
)
    requires
        before.valid(),
        0 <= n < before.queues@.len(),
        after.queues@.len() == before.queues@.len() - 1,
        forall|j: int| 0 <= j < n ==> #[trigger] after.queues@[j] == before.queues@[j],
        forall|j: int|
            n <= j < after.queues@.len() ==> #[trigger] after.queues@[j] == before.queues@[j + 1],
    ensures
        after.valid(),
        after.waiting(before.key_at(n)) == Seq::<T>::empty(),
        forall|other: K::V|
            other != before.key_at(n) ==> #[trigger] after.waiting(other) == before.waiting(other),
{
    let gone = before.key_at(n);
    assert forall|j: int| 0 <= j < after.queues@.len() implies #[trigger] after.key_at(j)
        == before.key_at(if j < n { j } else { j + 1 }) by {
        assert(after.queues@[j] == before.queues@[if j < n { j } else { j + 1 }]);
    }
    assert forall|i: int, j: int| 0 <= i < j < after.queues@.len() implies #[trigger] after.key_at(i)
        != #[trigger] after.key_at(j) by {
        let a = if i < n { i } else { i + 1 };
        let b = if j < n { j } else { j + 1 };
        assert(before.key_at(a) != before.key_at(b));
    }
    assert forall|i: int| 0 <= i < after.queues@.len() implies (#[trigger] after.queues@[i]).items@.len()
        > 0 by {
        let a = if i < n { i } else { i + 1 };
        assert(after.queues@[i] == before.queues@[a]);
    }
    assert(after.valid());
    assert forall|i: int| 0 <= i < after.queues@.len() implies after.key_at(i) != gone by {
        let a = if i < n { i } else { i + 1 };
        assert(after.key_at(i) == before.key_at(a));
        if a < n {
            assert(before.key_at(a) != before.key_at(n));
        } else {
            assert(before.key_at(n) != before.key_at(a));
        }
    }
    after.lemma_waiting_nothing(gone);
    assert forall|other: K::V| other != gone implies #[trigger] after.waiting(other)
        == before.waiting(other) by {
        if exists|i: int| before.holds_key(i, other) {
            let i = choose|i: int| before.holds_key(i, other);
            assert(i != n);
            let a = if i < n { i } else { i - 1 };
            assert(after.queues@[a] == before.queues@[i]);
            assert(after.key_at(a) == other);
            before.lemma_waiting_at(i);
            after.lemma_waiting_at(a);
        } else {
            assert forall|i: int| 0 <= i < before.queues@.len() implies before.key_at(i) != other by {
                if before.key_at(i) == other {
                    assert(before.holds_key(i, other));
                }
            }
            before.lemma_waiting_nothing(other);
            assert forall|i: int| 0 <= i < after.queues@.len() implies after.key_at(i) != other by {
                let a = if i < n { i } else { i + 1 };
                assert(after.key_at(i) == before.key_at(a));
                assert(before.key_at(a) != other);
            }
            after.lemma_waiting_nothing(other);
        }
    }
}

} // verus!
