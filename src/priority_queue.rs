use std::collections::HashMap;
use std::hash::Hash;
use vstd::prelude::*;
use vstd::std_specs::hash::obeys_key_model;

use crate::distance::GraphDistance;

verus! {

broadcast use vstd::std_specs::hash::group_hash_axioms;

pub open spec fn parent_of(i: int) -> int {
    (i - 1) / 2
}

fn parent_index(index: usize) -> (r: usize)
    requires
        index > 0,
    ensures
        r == parent_of(index as int),
{
    (index - 1) / 2
}

fn left_child_index(index: usize) -> (r: usize)
    requires
        index < usize::MAX / 2,
    ensures
        r == 2 * index + 1,
{
    2 * index + 1
}

/// One heap slot: a key, its priority and the payload handed back on removal.
#[derive(Clone, Copy)]
pub struct Slot<K, P, X> {
    pub key: K,
    pub priority: P,
    pub extra: X,
}

/// An indexed binary min-heap: every key occurs at most once, and a map from
/// key to slot lets an entry's priority change in place.
#[derive(Clone)]
pub struct PriorityQueue<K, P, X> {
    slots: Vec<Slot<K, P, X>>,
    positions: HashMap<K, usize>,
}

pub open spec fn prio<K, P: GraphDistance, X>(s: Seq<Slot<K, P, X>>, i: int) -> int {
    s[i].priority.measure()
}

/// Every slot but the root is no smaller than its parent.
pub open spec fn is_heap<K, P: GraphDistance, X>(s: Seq<Slot<K, P, X>>) -> bool {
    forall|i: int| 0 < i < s.len() ==> #[trigger] prio(s, parent_of(i)) <= prio(s, i)
}

/// The heap property, except possibly between slot `e` and its parent; the
/// parent of `e` is still no larger than the children of `e`.
pub open spec fn heap_but_up<K, P: GraphDistance, X>(s: Seq<Slot<K, P, X>>, e: int) -> bool {
    &&& forall|i: int| 0 < i < s.len() && i != e ==> #[trigger] prio(s, parent_of(i)) <= prio(s, i)
    &&& forall|c: int|
        0 < e && 0 < c < s.len() && parent_of(c) == e ==> prio(s, parent_of(e)) <= #[trigger] prio(
            s,
            c,
        )
}

/// The heap property, except possibly between slot `e` and its children; the
/// parent of `e` is still no larger than the children of `e`.
pub open spec fn heap_but_down<K, P: GraphDistance, X>(s: Seq<Slot<K, P, X>>, e: int) -> bool {
    &&& forall|i: int|
        0 < i < s.len() && parent_of(i) != e ==> #[trigger] prio(s, parent_of(i)) <= prio(s, i)
    &&& forall|c: int|
        0 < e && 0 < c < s.len() && parent_of(c) == e ==> prio(s, parent_of(e)) <= #[trigger] prio(
            s,
            c,
        )
}

proof fn lemma_root_is_min<K, P: GraphDistance, X>(s: Seq<Slot<K, P, X>>, i: int)
    requires
        is_heap(s),
        0 <= i < s.len(),
    ensures
        prio(s, 0) <= prio(s, i),
    decreases i,
{
    if i > 0 {
        assert(prio(s, parent_of(i)) <= prio(s, i));
        lemma_root_is_min(s, parent_of(i));
    }
}

impl<K: Copy + Eq + Hash, P: GraphDistance, X: Copy> PriorityQueue<K, P, X> {
    /// The slots and the key map agree with each other.
    pub closed spec fn keys_ok(&self) -> bool {
        &&& obeys_key_model::<K>()
        &&& self.positions@.len() == self.slots@.len()
        &&& forall|i: int|
            0 <= i < self.slots@.len() ==> {
                &&& #[trigger] self.positions@.contains_key(self.slots@[i].key)
                &&& self.positions@[self.slots@[i].key] == i
            }
        &&& forall|k: K| #[trigger]
            self.positions@.contains_key(k) ==> {
                &&& self.positions@[k] < self.slots@.len()
                &&& self.slots@[self.positions@[k] as int].key == k
            }
    }

    pub closed spec fn wf(&self) -> bool {
        self.keys_ok() && is_heap(self.slots@)
    }

    /// The entries held, each key with its priority and payload.
    pub closed spec fn view(&self) -> Map<K, (P, X)> {
        Map::new(
            |k: K| self.positions@.contains_key(k),
            |k: K|
                (
                    self.slots@[self.positions@[k] as int].priority,
                    self.slots@[self.positions@[k] as int].extra,
                ),
        )
    }

    pub fn new() -> (r: Self)
        requires
            obeys_key_model::<K>(),
        ensures
            r.wf(),
            r.view() == Map::<K, (P, X)>::empty(),
    {
        let r = PriorityQueue { slots: Vec::new(), positions: HashMap::new() };
        assert(r.view() =~= Map::<K, (P, X)>::empty());
        assert(r.positions@.dom() =~= Set::empty());
        r
    }

    /// Exchanges two slots and records their new places in the key map.
    fn swap_slots(&mut self, i: usize, j: usize)
        requires
            old(self).keys_ok(),
            i < old(self).slots@.len(),
            j < old(self).slots@.len(),
            i != j,
        ensures
            final(self).keys_ok(),
            final(self).slots@ == old(self).slots@.update(i as int, old(self).slots@[j as int]).update(
                j as int,
                old(self).slots@[i as int],
            ),
            final(self).view() == old(self).view(),
    {
        let a = self.slots[i];
        let b = self.slots[j];
        assert(self.positions@.contains_key(self.slots@[i as int].key));
        assert(self.positions@.contains_key(self.slots@[j as int].key));
        self.slots[i] = b;
        self.slots[j] = a;
        self.positions.insert(b.key, i);
        self.positions.insert(a.key, j);
        proof {
            assert(self.positions@.dom() =~= old(self).positions@.dom());
            assert forall|k: K| #[trigger] self.positions@.contains_key(k) implies {
                &&& self.positions@[k] < self.slots@.len()
                &&& self.slots@[self.positions@[k] as int].key == k
            } by {
                if k != a.key && k != b.key {
                    assert(old(self).positions@.contains_key(k));
                }
            }
            assert forall|m: int| 0 <= m < self.slots@.len() implies {
                &&& #[trigger] self.positions@.contains_key(self.slots@[m].key)
                &&& self.positions@[self.slots@[m].key] == m
            } by {
                if m != i && m != j {
                    assert(old(self).positions@.contains_key(old(self).slots@[m].key));
                }
            }
            assert(self.view() =~= old(self).view());
        }
    }

    /// Moves the entry at slot `i` towards the root until its parent is no larger.
    fn sift_up(&mut self, i: usize)
        requires
            old(self).keys_ok(),
            heap_but_up(old(self).slots@, i as int),
            i < old(self).slots@.len(),
        ensures
            final(self).wf(),
            final(self).view() == old(self).view(),
            final(self).slots@.len() == old(self).slots@.len(),
        decreases i,
    {
        if i > 0 {
            let p = parent_index(i);
            if self.slots[i].priority.less_than(self.slots[p].priority) {
                let ghost s = self.slots@;
                self.swap_slots(i, p);
                proof {
                    let t = self.slots@;
                    assert forall|c: int| 0 < c < t.len() && c != p implies #[trigger] prio(
                        t,
                        parent_of(c),
                    ) <= prio(t, c) by {
                        if c == i {
                        } else if parent_of(c) == i {
                            assert(prio(s, parent_of(c)) <= prio(s, c));
                        } else if parent_of(c) == p {
                            assert(prio(s, parent_of(c)) <= prio(s, c));
                        } else {
                            assert(prio(s, parent_of(c)) <= prio(s, c));
                        }
                    }
                    assert forall|c: int|
                        0 < p && 0 < c < t.len() && parent_of(c) == p implies prio(
                        t,
                        parent_of(p as int),
                    ) <= #[trigger] prio(t, c) by {
                        assert(prio(s, parent_of(p as int)) <= prio(s, p as int));
                        if c != i {
                            assert(prio(s, parent_of(c)) <= prio(s, c));
                        }
                    }
                }
                self.sift_up(p);
            } else {
                proof {
                    let s = self.slots@;
                    assert forall|c: int| 0 < c < s.len() implies #[trigger] prio(s, parent_of(c))
                        <= prio(s, c) by {
                        if c != i {
                            assert(prio(s, parent_of(c)) <= prio(s, c));
                        }
                    }
                }
            }
        } else {
            proof {
                let s = self.slots@;
                assert forall|c: int| 0 < c < s.len() implies #[trigger] prio(s, parent_of(c)) <= prio(
                    s,
                    c,
                ) by {
                    assert(c != i);
                }
            }
        }
    }

    /// Moves the entry at slot `i` away from the root until no child is smaller.
    fn sift_down(&mut self, i: usize)
        requires
            old(self).keys_ok(),
            heap_but_down(old(self).slots@, i as int),
            i < old(self).slots@.len(),
        ensures
            final(self).wf(),
            final(self).view() == old(self).view(),
            final(self).slots@.len() == old(self).slots@.len(),
        decreases old(self).slots@.len() - i,
    {
        let len = self.slots.len();
        if i >= len / 2 {
            proof {
                let s = self.slots@;
                assert forall|c: int| 0 < c < s.len() implies #[trigger] prio(s, parent_of(c)) <= prio(
                    s,
                    c,
                ) by {
                    assert(parent_of(c) != i);
                }
            }
            return;
        }
        let l = left_child_index(i);
        let mut m = i;
        if self.slots[l].priority.less_than(self.slots[m].priority) {
            m = l;
        }
        if l + 1 < len && self.slots[l + 1].priority.less_than(self.slots[m].priority) {
            m = l + 1;
        }
        let ghost s = self.slots@;
        assert(prio(s, m as int) <= prio(s, i as int));
        assert(prio(s, m as int) <= prio(s, l as int));
        assert(l + 1 < len ==> prio(s, m as int) <= prio(s, l + 1));
        if m != i {
            self.swap_slots(i, m);
            proof {
                let t = self.slots@;
                assert forall|c: int| 0 < c < t.len() && parent_of(c) != m implies #[trigger] prio(
                    t,
                    parent_of(c),
                ) <= prio(t, c) by {
                    if parent_of(c) == i {
                    } else if c == i {
                        assert(prio(s, parent_of(c)) <= prio(s, m as int));
                    } else {
                        assert(prio(s, parent_of(c)) <= prio(s, c));
                    }
                }
                assert forall|c: int|
                    0 < m && 0 < c < t.len() && parent_of(c) == m implies prio(
                    t,
                    parent_of(m as int),
                ) <= #[trigger] prio(t, c) by {
                    assert(prio(s, parent_of(c)) <= prio(s, c));
                }
            }
            self.sift_down(m);
        } else {
            proof {
                assert forall|c: int| 0 < c < s.len() implies #[trigger] prio(s, parent_of(c)) <= prio(
                    s,
                    c,
                ) by {
                    if parent_of(c) != i {
                        assert(prio(s, parent_of(c)) <= prio(s, c));
                    } else {
                        assert(c == l || c == l + 1);
                    }
                }
            }
        }
    }

    /// Only finitely many keys are queued.
    pub proof fn lemma_view_finite(&self)
        requires
            self.wf(),
        ensures
            self.view().dom().finite(),
    {
        assert(self.view().dom() =~= self.positions@.dom());
    }

    /// Number of entries held.
    pub fn len(&self) -> (r: usize)
        requires
            self.wf(),
        ensures
            r == self.view().len(),
    {
        proof {
            assert(self.view().dom() =~= self.positions@.dom());
        }
        self.slots.len()
    }

    /// The priority held for `key`, if it is queued.
    pub fn peek_by_key(&self, key: &K) -> (r: Option<P>)
        requires
            self.wf(),
        ensures
            r == (if self.view().contains_key(*key) {
                Some(self.view()[*key].0)
            } else {
                None
            }),
    {
        match self.positions.get(key) {
            Some(pos) => Some(self.slots[*pos].priority),
            None => None,
        }
    }

    /// Inserts `key`, or, where it is already queued, replaces its priority and
    /// payload and moves it to its new place.
    pub fn push(&mut self, data: K, priority: P, extra: X)
        requires
            old(self).wf(),
            old(self).view().len() < usize::MAX,
        ensures
            final(self).wf(),
            final(self).view() == old(self).view().insert(data, (priority, extra)),
    {
        proof {
            assert(self.view().dom() =~= self.positions@.dom());
        }
        let entry = Slot { key: data, priority, extra };
        match self.positions.get(&data) {
            Some(pos) => {
                let pos = *pos;
                let previous = self.slots[pos].priority;
                let ghost s = self.slots@;
                self.slots[pos] = entry;
                proof {
                    let t = self.slots@;
                    assert(self.view() =~= old(self).view().insert(data, (priority, extra)));
                    assert forall|k: K| #[trigger] self.positions@.contains_key(k) implies {
                        &&& self.positions@[k] < self.slots@.len()
                        &&& self.slots@[self.positions@[k] as int].key == k
                    } by {}
                    assert forall|m: int| 0 <= m < t.len() implies {
                        &&& #[trigger] self.positions@.contains_key(t[m].key)
                        &&& self.positions@[t[m].key] == m
                    } by {
                        assert(self.positions@.contains_key(s[m].key));
                    }
                    assert forall|c: int| 0 < c < t.len() && parent_of(c) == pos implies prio(
                        s,
                        c,
                    ) >= prio(s, pos as int) by {
                        assert(prio(s, parent_of(c)) <= prio(s, c));
                    }
                    if pos > 0 {
                        assert(prio(s, parent_of(pos as int)) <= prio(s, pos as int));
                    }
                    assert forall|c: int| 0 < c < t.len() && c != pos && parent_of(c) != pos implies #[trigger] prio(
                        t,
                        parent_of(c),
                    ) <= prio(t, c) by {
                        assert(prio(s, parent_of(c)) <= prio(s, c));
                    }
                }
                if priority.less_than(previous) {
                    proof {
                        let t = self.slots@;
                        assert forall|c: int| 0 < c < t.len() && parent_of(c) == pos implies #[trigger] prio(
                            t,
                            parent_of(c),
                        ) <= prio(t, c) by {
                            assert(prio(s, c) >= prio(s, pos as int));
                        }
                        assert forall|c: int|
                            0 < pos && 0 < c < t.len() && parent_of(c) == pos implies prio(
                            t,
                            parent_of(pos as int),
                        ) <= #[trigger] prio(t, c) by {
                            assert(prio(s, c) >= prio(s, pos as int));
                        }
                    }
                    self.sift_up(pos);
                } else {
                    proof {
                        let t = self.slots@;
                        assert forall|c: int| 0 < c < t.len() && c == pos implies #[trigger] prio(
                            t,
                            parent_of(c),
                        ) <= prio(t, c) by {}
                        assert forall|c: int|
                            0 < pos && 0 < c < t.len() && parent_of(c) == pos implies prio(
                            t,
                            parent_of(pos as int),
                        ) <= #[trigger] prio(t, c) by {
                            assert(prio(s, c) >= prio(s, pos as int));
                        }
                    }
                    self.sift_down(pos);
                }
            },
            None => {
                let n = self.slots.len();
                let ghost s = self.slots@;
                self.slots.push(entry);
                self.positions.insert(data, n);
                proof {
                    let t = self.slots@;
                    assert(self.positions@.dom() =~= old(self).positions@.dom().insert(data));
                    assert forall|k: K| #[trigger] self.positions@.contains_key(k) implies {
                        &&& self.positions@[k] < self.slots@.len()
                        &&& self.slots@[self.positions@[k] as int].key == k
                    } by {
                        if k != data {
                            assert(old(self).positions@.contains_key(k));
                        }
                    }
                    assert forall|m: int| 0 <= m < t.len() implies {
                        &&& #[trigger] self.positions@.contains_key(t[m].key)
                        &&& self.positions@[t[m].key] == m
                    } by {
                        if m < n {
                            assert(old(self).positions@.contains_key(s[m].key));
                        }
                    }
                    assert(self.view() =~= old(self).view().insert(data, (priority, extra)));
                    assert forall|c: int| 0 < c < t.len() && c != n implies #[trigger] prio(
                        t,
                        parent_of(c),
                    ) <= prio(t, c) by {
                        assert(prio(s, parent_of(c)) <= prio(s, c));
                    }
                }
                self.sift_up(n);
            },
        }
    }

    /// Removes and returns an entry of least priority.
    pub fn pop_by_priority(&mut self) -> (r: Option<(K, P, X)>)
        requires
            old(self).wf(),
        ensures
            final(self).wf(),
            r is None <==> old(self).view().len() == 0,
            r is None ==> final(self).view() == old(self).view(),
            r matches Some((k, p, x)) ==> {
                &&& old(self).view().contains_key(k)
                &&& old(self).view()[k] == (p, x)
                &&& final(self).view() == old(self).view().remove(k)
                &&& forall|j: K| #[trigger]
                    old(self).view().contains_key(j) ==> p.measure() <= old(self).view()[j].0.measure()
            },
    {
        proof {
            assert(self.view().dom() =~= self.positions@.dom());
        }
        let len = self.slots.len();
        if len == 0 {
            return None;
        }
        let ghost s = self.slots@;
        let root = self.slots[0];
        proof {
            assert(self.positions@.contains_key(s[0].key));
            assert forall|j: K| #[trigger] old(self).view().contains_key(j) implies root.priority.measure()
                <= old(self).view()[j].0.measure() by {
                lemma_root_is_min(s, self.positions@[j] as int);
            }
        }
        let last = self.slots.pop().unwrap();
        self.positions.remove(&root.key);
        if len > 1 {
            proof {
                assert(self.positions@.contains_key(s[len - 1].key) || s[len - 1].key == root.key);
                assert(old(self).positions@.contains_key(s[len - 1].key));
            }
            self.slots[0] = last;
            self.positions.insert(last.key, 0);
            proof {
                let t = self.slots@;
                assert(self.positions@.dom() =~= old(self).positions@.dom().remove(root.key));
                assert forall|k: K| #[trigger] self.positions@.contains_key(k) implies {
                    &&& self.positions@[k] < self.slots@.len()
                    &&& self.slots@[self.positions@[k] as int].key == k
                } by {
                    if k != last.key {
                        assert(old(self).positions@.contains_key(k));
                    }
                }
                assert forall|m: int| 0 <= m < t.len() implies {
                    &&& #[trigger] self.positions@.contains_key(t[m].key)
                    &&& self.positions@[t[m].key] == m
                } by {
                    if m > 0 {
                        assert(old(self).positions@.contains_key(s[m].key));
                    }
                }
                assert(self.view() =~= old(self).view().remove(root.key));
                assert forall|c: int| 0 < c < t.len() && parent_of(c) != 0 implies #[trigger] prio(
                    t,
                    parent_of(c),
                ) <= prio(t, c) by {
                    assert(prio(s, parent_of(c)) <= prio(s, c));
                }
            }
            self.sift_down(0);
        } else {
            proof {
                assert(self.positions@.dom() =~= Set::empty());
                assert(self.view() =~= old(self).view().remove(root.key));
            }
        }
        Some((root.key, root.priority, root.extra))
    }
}


/// Pushing a key that is already queued, with a lower priority than the one it
/// holds, changes the priority that a later `peek_by_key` reports for it.
pub proof fn lemma_decrease_key_visible<K: Copy + Eq + Hash, P: GraphDistance, X: Copy>(
    before: PriorityQueue<K, P, X>,
    after: PriorityQueue<K, P, X>,
    key: K,
    priority: P,
    extra: X,
)
    requires
        before.wf(),
        before.view().contains_key(key),
        priority.measure() < before.view()[key].0.measure(),
        after.view() == before.view().insert(key, (priority, extra)),
    ensures
        after.view().contains_key(key),
        after.view()[key].0 == priority,
        after.view()[key].0 != before.view()[key].0,
{
}

/// The entry that `pop_by_priority` hands back right after a `push` has no
/// larger priority than the one pushed: the pushed entry is among those it is
/// the least of.
pub proof fn lemma_pop_after_push<K: Copy + Eq + Hash, P: GraphDistance, X: Copy>(
    before: PriorityQueue<K, P, X>,
    pushed: PriorityQueue<K, P, X>,
    key: K,
    priority: P,
    extra: X,
    popped: (K, P, X),
)
    requires
        before.wf(),
        pushed.view() == before.view().insert(key, (priority, extra)),
        pushed.view().contains_key(popped.0),
        pushed.view()[popped.0] == (popped.1, popped.2),
        forall|j: K| #[trigger]
            pushed.view().contains_key(j) ==> popped.1.measure() <= pushed.view()[j].0.measure(),
    ensures
        popped.1.measure() <= priority.measure(),
{
    assert(pushed.view().contains_key(key));
}

} // verus!
