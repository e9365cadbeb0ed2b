use vstd::prelude::*;
use std::collections::HashMap;
use std::collections::VecDeque;
use crate::text::same_text;

verus! {

broadcast use vstd::std_specs::hash::group_hash_axioms;

/// Longest edge of the cached develop-preview base image.
pub const PREVIEW_MAX: u32 = 2560;

/// Decoded preview bases keyed by photo id, each stored with the path it
/// was decoded from (row ids are reused after deletes). At most `cap`
/// entries are kept; the one inserted first is dropped first.
pub struct PreviewCache<V> {
    map: HashMap<i64, (String, V)>,
    order: VecDeque<i64>,
    cap: usize,
}

/// What a cache holds: per id the path and value, the insertion order of
/// the ids, and the capacity.
pub struct CacheView<V> {
    pub entries: Map<i64, (Seq<char>, V)>,
    pub order: Seq<i64>,
    pub cap: nat,
}

/// The ids dropped when `order` has to shrink to `cap` entries.
pub open spec fn evicted(order: Seq<i64>, cap: nat) -> Seq<i64> {
    if order.len() > cap {
        order.take(order.len() - cap)
    } else {
        Seq::empty()
    }
}

/// The ids kept when `order` has to shrink to `cap` entries.
pub open spec fn kept(order: Seq<i64>, cap: nat) -> Seq<i64> {
    if order.len() > cap {
        order.skip(order.len() - cap)
    } else {
        order
    }
}

/// The cache after `insert(id, path, value)`.
pub open spec fn after_insert<V>(c: CacheView<V>, id: i64, path: Seq<char>, value: V) -> CacheView<V> {
    let entries = c.entries.insert(id, (path, value));
    let order = if c.entries.contains_key(id) {
        c.order
    } else {
        c.order.push(id)
    };
    CacheView {
        entries: entries.remove_keys(evicted(order, c.cap).to_set()),
        order: kept(order, c.cap),
        cap: c.cap,
    }
}

/// What `get(id, path)` finds in the cache.
pub open spec fn lookup<V>(c: CacheView<V>, id: i64, path: Seq<char>) -> Option<V> {
    if c.entries.contains_key(id) && c.entries[id].0 == path {
        Some(c.entries[id].1)
    } else {
        None
    }
}

/// The cache invariant: the order lists each cached id exactly once and
/// never holds more than `cap` ids.
pub open spec fn cache_wf<V>(c: CacheView<V>) -> bool {
    &&& c.order.no_duplicates()
    &&& forall|k: i64| c.entries.contains_key(k) <==> c.order.contains(k)
    &&& c.order.len() <= c.cap
}

impl<V> PreviewCache<V> {
    pub closed spec fn view(&self) -> CacheView<V> {
        CacheView {
            entries: self.map@.map_values(|e: (String, V)| (e.0@, e.1)),
            order: self.order@,
            cap: self.cap as nat,
        }
    }

    pub open spec fn wf(&self) -> bool {
        cache_wf(self.view())
    }

    /// An empty cache that keeps at most `cap` entries.
    pub fn new(cap: usize) -> (c: Self)
        ensures
            c.wf(),
            c.view().entries == Map::<i64, (Seq<char>, V)>::empty(),
            c.view().order == Seq::<i64>::empty(),
            c.view().cap == cap,
    {
        let c = PreviewCache { map: HashMap::new(), order: VecDeque::new(), cap };
        assert(c.view().entries =~= Map::<i64, (Seq<char>, V)>::empty());
        c
    }

    /// The value cached for `id`, provided it was decoded from `path`.
    pub fn get(&self, id: i64, path: &str) -> (r: Option<&V>)
        requires
            self.wf(),
        ensures
            match r {
                Some(v) => lookup(self.view(), id, path@) == Some(*v),
                None => lookup(self.view(), id, path@) is None,
            },
    {
        match self.map.get(&id) {
            Some(e) => {
                if same_text(e.0.as_str(), path) {
                    Some(&e.1)
                } else {
                    None
                }
            },
            None => None,
        }
    }

    /// Cache `value` for `id` (decoded from `path`), then drop the oldest
    /// ids until at most `cap` remain. Replacing the value of a cached id
    /// keeps that id's place in the order.
    pub fn insert(&mut self, id: i64, path: &str, value: V)
        requires
            old(self).wf(),
        ensures
            final(self).wf(),
            final(self).view() == after_insert(old(self).view(), id, path@, value),
    {
        let ghost c0 = self.view();
        let prev = self.map.insert(id, (String::from_str(path), value));
        if prev.is_none() {
            self.order.push_back(id);
        }
        let ghost order1 = self.order@;
        let ghost entries1 = self.view().entries;
        proof {
            assert(entries1 =~= c0.entries.insert(id, (path@, value)));
            assert(order1 == if c0.entries.contains_key(id) { c0.order } else { c0.order.push(id) });
            assert(entries1.dom() =~= c0.entries.dom().insert(id));
            assert forall|k: i64| entries1.contains_key(k) <==> order1.contains(k) by {
                if k == id {
                    if c0.entries.contains_key(id) {
                        assert(c0.order.contains(id));
                    } else {
                        assert(order1[order1.len() - 1] == id);
                    }
                } else {
                    if order1.contains(k) {
                        let j = choose|j: int| 0 <= j < order1.len() && order1[j] == k;
                        if !c0.entries.contains_key(id) {
                            assert(j < c0.order.len());
                        }
                        assert(c0.order[j] == k);
                        assert(c0.order.contains(k));
                    }
                    if c0.order.contains(k) {
                        let j = choose|j: int| 0 <= j < c0.order.len() && c0.order[j] == k;
                        assert(order1[j] == k);
                    }
                }
            }
            assert forall|i: int, j: int| 0 <= i < order1.len() && 0 <= j < order1.len() && i != j implies order1[i] != order1[j] by {
                if !c0.entries.contains_key(id) {
                    assert(!c0.order.contains(id));
                    if j == order1.len() - 1 && i < c0.order.len() {
                        assert(order1[i] == c0.order[i]);
                    } else if i == order1.len() - 1 && j < c0.order.len() {
                        assert(order1[j] == c0.order[j]);
                    } else {
                        assert(order1[i] == c0.order[i]);
                        assert(order1[j] == c0.order[j]);
                    }
                }
            }
            assert(order1.no_duplicates());
        }
        let mut dropped: usize = 0;
        while self.order.len() > self.cap
            invariant
                dropped <= order1.len(),
                self.order@ == order1.skip(dropped as int),
                self.cap == c0.cap,
                self.view().entries == entries1.remove_keys(order1.take(dropped as int).to_set()),
                order1.no_duplicates(),
                forall|k: i64| entries1.contains_key(k) <==> order1.contains(k),
                order1.len() <= c0.cap + 1,
                dropped <= 1,
                dropped > 0 ==> order1.len() - dropped >= c0.cap,
            decreases self.order@.len(),
        {
            let ghost e_before = self.view().entries;
            let ghost m_before = self.map@;
            let oldest = self.order.pop_front();
            if let Some(o) = oldest {
                self.map.remove(&o);
                proof {
                    assert(self.map@ =~= m_before.remove(o));
                    assert(self.view().entries =~= e_before.remove(o));
                    assert(o == order1[dropped as int]);
                    assert(order1.take(dropped + 1).to_set() =~= order1.take(dropped as int).to_set().insert(o)) by {
                        assert(order1.take(dropped + 1) =~= order1.take(dropped as int).push(o));
                    }
                    assert(self.order@ =~= order1.skip(dropped + 1));
                    assert(self.view().entries =~= entries1.remove_keys(order1.take(dropped + 1).to_set()));
                }
                dropped = dropped + 1;
            }
        }
        proof {
            let c1 = self.view();
            assert(evicted(order1, c0.cap) =~= order1.take(dropped as int));
            assert(kept(order1, c0.cap) =~= order1.skip(dropped as int));
            assert(c1.order.no_duplicates());
            let dropped_ids = order1.take(dropped as int);
            assert forall|k: i64| c1.entries.contains_key(k) <==> c1.order.contains(k) by {
                if c1.order.contains(k) {
                    let j = choose|j: int| 0 <= j < c1.order.len() && c1.order[j] == k;
                    assert(order1[j + dropped] == k);
                    assert(order1.contains(k));
                    assert(entries1.contains_key(k));
                    if dropped_ids.contains(k) {
                        let i = choose|i: int| 0 <= i < dropped_ids.len() && dropped_ids[i] == k;
                        assert(order1[i] == k);
                    }
                    assert(!dropped_ids.to_set().contains(k));
                }
                if c1.entries.contains_key(k) {
                    assert(entries1.contains_key(k));
                    assert(!dropped_ids.to_set().contains(k));
                    assert(order1.contains(k));
                    let j = choose|j: int| 0 <= j < order1.len() && order1[j] == k;
                    if j < dropped {
                        assert(dropped_ids[j] == k);
                        assert(dropped_ids.contains(k));
                    }
                    assert(c1.order[j - dropped] == k);
                }
            }
        }
    }
}

/// A value just inserted under a non-zero capacity is found again with the
/// same id and path.
pub proof fn law_insert_then_get<V>(c: CacheView<V>, id: i64, path: Seq<char>, value: V)
    requires
        cache_wf(c),
        c.cap >= 1,
    ensures
        lookup(after_insert(c, id, path, value), id, path) == Some(value),
{
    let order = if c.entries.contains_key(id) { c.order } else { c.order.push(id) };
    if c.entries.contains_key(id) {
        assert(evicted(order, c.cap) =~= Seq::<i64>::empty());
    } else {
        assert(!c.order.contains(id));
        if order.len() > c.cap {
            assert(order.len() - c.cap == 1);
            assert(evicted(order, c.cap) =~= seq![c.order[0]]);
            assert(c.order[0] != id);
        } else {
            assert(evicted(order, c.cap) =~= Seq::<i64>::empty());
        }
    }
    assert(!evicted(order, c.cap).to_set().contains(id));
}

/// The cache never holds more than its capacity, and an insert drops at
/// most one entry: the id that was inserted earliest.
pub proof fn law_insert_evicts_oldest<V>(c: CacheView<V>, id: i64, path: Seq<char>, value: V)
    requires
        cache_wf(c),
    ensures
        after_insert(c, id, path, value).order.len() <= c.cap,
        c.entries.contains_key(id) ==> after_insert(c, id, path, value).order == c.order,
        !c.entries.contains_key(id) && c.order.len() == c.cap && c.cap >= 1
            ==> after_insert(c, id, path, value).order == c.order.drop_first().push(id),
        !c.entries.contains_key(id) && c.order.len() < c.cap
            ==> after_insert(c, id, path, value).order == c.order.push(id),
{
    if !c.entries.contains_key(id) && c.order.len() == c.cap && c.cap >= 1 {
        assert(c.order.push(id).skip(1) =~= c.order.drop_first().push(id));
    }
}

} // verus!
