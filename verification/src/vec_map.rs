use vstd::prelude::*;

verus! {

/// A small association list from `usize` ids to values, in insertion order.
pub struct VecMap<V> {
    pub items: Vec<(usize, V)>,
}

/// Whether the ids of `s` are pairwise distinct.
pub open spec fn keys_unique<V>(s: Seq<(usize, V)>) -> bool {
    forall|i: int, j: int| 0 <= i < s.len() && 0 <= j < s.len() && i != j ==> s[i].0 != s[j].0
}

/// Whether `id` occurs as an id in `s`.
pub open spec fn has_key<V>(s: Seq<(usize, V)>, id: usize) -> bool {
    exists|i: int| 0 <= i < s.len() && s[i].0 == id
}

/// The map that an association list with distinct ids stands for.
pub open spec fn assoc_map<V>(s: Seq<(usize, V)>) -> Map<usize, V> {
    Map::new(
        |k: usize| has_key(s, k),
        |k: usize| s[choose|i: int| 0 <= i < s.len() && s[i].0 == k].1,
    )
}

/// The position of the entry with id `id` (meaningful when there is one).
pub open spec fn key_index<V>(s: Seq<(usize, V)>, id: usize) -> int {
    choose|i: int| 0 <= i < s.len() && s[i].0 == id
}

pub proof fn lemma_assoc_map_index<V>(s: Seq<(usize, V)>, i: int)
    requires
        keys_unique(s),
        0 <= i < s.len(),
    ensures
        assoc_map(s).dom().contains(s[i].0),
        assoc_map(s)[s[i].0] == s[i].1,
        key_index(s, s[i].0) == i,
{
    assert(has_key(s, s[i].0));
    let j = choose|j: int| 0 <= j < s.len() && s[j].0 == s[i].0;
    assert(j == i);
}

pub proof fn lemma_assoc_map_update<V>(s: Seq<(usize, V)>, i: int)
    requires
        keys_unique(s),
        0 <= i < s.len(),
    ensures
        forall|v: V| #![trigger s.update(i, (s[i].0, v))]
            keys_unique(s.update(i, (s[i].0, v)))
            && assoc_map(s.update(i, (s[i].0, v))) == assoc_map(s).insert(s[i].0, v),
{
    assert forall|v: V| #![trigger s.update(i, (s[i].0, v))]
        keys_unique(s.update(i, (s[i].0, v)))
        && assoc_map(s.update(i, (s[i].0, v))) == assoc_map(s).insert(s[i].0, v) by {
        let t = s.update(i, (s[i].0, v));
        assert(keys_unique(t));
        assert forall|k: usize| #![auto] has_key(t, k) == (has_key(s, k) || k == s[i].0) by {
            if has_key(s, k) {
                let j = choose|j: int| 0 <= j < s.len() && s[j].0 == k;
                assert(t[j].0 == k);
            }
            if has_key(t, k) {
                let j = choose|j: int| 0 <= j < t.len() && t[j].0 == k;
                assert(s[j].0 == k);
            }
        }
        assert forall|k: usize| #[trigger] assoc_map(t).dom().contains(k) implies
            assoc_map(t)[k] == assoc_map(s).insert(s[i].0, v)[k] by {
            let j = choose|j: int| 0 <= j < t.len() && t[j].0 == k;
            lemma_assoc_map_index(t, j);
            if j != i {
                lemma_assoc_map_index(s, j);
            }
        }
        assert(assoc_map(t) =~= assoc_map(s).insert(s[i].0, v));
    }
}

pub proof fn lemma_assoc_map_remove<V>(s: Seq<(usize, V)>, i: int)
    requires
        keys_unique(s),
        0 <= i < s.len(),
    ensures
        keys_unique(s.remove(i)),
        assoc_map(s.remove(i)) == assoc_map(s).remove(s[i].0),
{
    let t = s.remove(i);
    s.remove_ensures(i);
    assert forall|a: int, b: int| 0 <= a < t.len() && 0 <= b < t.len() && a != b implies t[a].0
        != t[b].0 by {
        let a2 = if a < i { a } else { a + 1 };
        let b2 = if b < i { b } else { b + 1 };
        assert(t[a] == s[a2] && t[b] == s[b2]);
    }
    assert forall|k: usize| #![auto] has_key(t, k) == (has_key(s, k) && k != s[i].0) by {
        if has_key(s, k) && k != s[i].0 {
            let j = choose|j: int| 0 <= j < s.len() && s[j].0 == k;
            if j < i {
                assert(t[j].0 == k);
            } else {
                assert(t[j - 1].0 == k);
            }
        }
        if has_key(t, k) {
            let j = choose|j: int| 0 <= j < t.len() && t[j].0 == k;
            let j2 = if j < i { j } else { j + 1 };
            assert(s[j2].0 == k);
        }
    }
    assert forall|k: usize| #[trigger] assoc_map(t).dom().contains(k) implies assoc_map(t)[k]
        == assoc_map(s).remove(s[i].0)[k] by {
        let j = choose|j: int| 0 <= j < t.len() && t[j].0 == k;
        lemma_assoc_map_index(t, j);
        let j2 = if j < i { j } else { j + 1 };
        lemma_assoc_map_index(s, j2);
    }
    assert(assoc_map(t) =~= assoc_map(s).remove(s[i].0));
}

pub proof fn lemma_assoc_map_push<V>(s: Seq<(usize, V)>, k: usize, v: V)
    requires
        keys_unique(s),
        !has_key(s, k),
    ensures
        keys_unique(s.push((k, v))),
        assoc_map(s.push((k, v))) == assoc_map(s).insert(k, v),
{
    let t = s.push((k, v));
    assert forall|x: usize| #![auto] has_key(t, x) == (has_key(s, x) || x == k) by {
        if has_key(s, x) {
            let j = choose|j: int| 0 <= j < s.len() && s[j].0 == x;
            assert(t[j].0 == x);
        }
        if x == k {
            assert(t[s.len() as int].0 == x);
        }
        if has_key(t, x) {
            let j = choose|j: int| 0 <= j < t.len() && t[j].0 == x;
            if j < s.len() {
                assert(s[j].0 == x);
            }
        }
    }
    assert forall|x: usize| #[trigger] assoc_map(t).dom().contains(x) implies assoc_map(t)[x]
        == assoc_map(s).insert(k, v)[x] by {
        let j = choose|j: int| 0 <= j < t.len() && t[j].0 == x;
        lemma_assoc_map_index(t, j);
        if j < s.len() {
            lemma_assoc_map_index(s, j);
        }
    }
    assert(assoc_map(t) =~= assoc_map(s).insert(k, v));
}

impl<V> View for VecMap<V> {
    type V = Map<usize, V>;

    open spec fn view(&self) -> Map<usize, V> {
        assoc_map(self.items@)
    }
}

impl<V> VecMap<V> {
    pub open spec fn wf(&self) -> bool {
        keys_unique(self.items@)
    }

    pub fn new() -> (m: Self)
        ensures
            m.wf(),
            m@ == Map::<usize, V>::empty(),
    {
        let m = VecMap { items: Vec::new() };
        assert(m@ =~= Map::<usize, V>::empty());
        m
    }

    fn find_index(&self, id: usize) -> (r: Option<usize>)
        requires
            self.wf(),
        ensures
            match r {
                Some(i) => i < self.items@.len() && self.items@[i as int].0 == id,
                None => !self@.dom().contains(id),
            },
    {
        let mut i: usize = 0;
        while i < self.items.len()
            invariant
                i <= self.items@.len(),
                forall|j: int| 0 <= j < i ==> self.items@[j].0 != id,
            decreases self.items@.len() - i,
        {
            if self.items[i].0 == id {
                return Some(i);
            }
            i = i + 1;
        }
        None
    }

    pub fn get(&self, id: usize) -> (r: Option<&V>)
        requires
            self.wf(),
        ensures
            match r {
                Some(v) => self@.dom().contains(id) && *v == self@[id],
                None => !self@.dom().contains(id),
            },
    {
        match self.find_index(id) {
            Some(i) => {
                proof { lemma_assoc_map_index(self.items@, i as int); }
                Some(&self.items[i].1)
            },
            None => None,
        }
    }

    pub fn get_mut(&mut self, id: usize) -> (r: &mut V)
        requires
            old(self).wf(),
            old(self)@.dom().contains(id),
        ensures
            *r == old(self)@[id],
            final(self).wf(),
            final(self)@ == old(self)@.insert(id, *final(r)),
            final(self).items@ == old(self).items@.update(
                key_index(old(self).items@, id),
                (id, *final(r)),
            ),
    {
        let i = self.find_index(id).unwrap();
        proof {
            lemma_assoc_map_index(self.items@, i as int);
            lemma_assoc_map_update(self.items@, i as int);
        }
        &mut self.items[i].1
    }

    pub fn remove(&mut self, id: usize) -> (r: V)
        requires
            old(self).wf(),
            old(self)@.dom().contains(id),
        ensures
            r == old(self)@[id],
            final(self).wf(),
            final(self)@ == old(self)@.remove(id),
            final(self).items@ == old(self).items@.remove(key_index(old(self).items@, id)),
    {
        let i = self.find_index(id).unwrap();
        proof {
            lemma_assoc_map_index(self.items@, i as int);
            lemma_assoc_map_remove(self.items@, i as int);
        }
        self.items.remove(i).1
    }

    pub fn get_mut_or_insert_default(&mut self, id: usize) -> (r: &mut V) where V: Default
        requires
            old(self).wf(),
        ensures
            old(self)@.dom().contains(id) ==> *r == old(self)@[id],
            !old(self)@.dom().contains(id) ==> V::default.ensures((), *r),
            final(self).wf(),
            final(self)@ == old(self)@.insert(id, *final(r)),
            old(self)@.dom().contains(id) ==> final(self).items@ == old(self).items@.update(
                key_index(old(self).items@, id),
                (id, *final(r)),
            ),
            !old(self)@.dom().contains(id) ==> final(self).items@ == old(self).items@.push(
                (id, *final(r)),
            ),
            final(self).items@.len() == old(self).items@.len() + if old(self)@.dom().contains(id) {
                0int
            } else {
                1int
            },
    {
        let idx = match self.find_index(id) {
            Some(i) => i,
            None => {
                let d = V::default();
                proof { lemma_assoc_map_push(self.items@, id, d); }
                self.items.push((id, d));
                self.items.len() - 1
            },
        };
        proof {
            lemma_assoc_map_index(self.items@, idx as int);
            lemma_assoc_map_update(self.items@, idx as int);
        }
        &mut self.items[idx].1
    }
}

impl<V> Default for VecMap<V> {
    fn default() -> (m: Self)
        ensures
            m.wf(),
            m@ == Map::<usize, V>::empty(),
    {
        VecMap::new()
    }
}

/// Inserting a default entry for a new id and removing it again gives back
/// the entries as they were, in the same order.
pub proof fn law_insert_then_remove<V>(s: Seq<(usize, V)>, id: usize, v: V)
    requires
        keys_unique(s),
        !has_key(s, id),
    ensures
        keys_unique(s.push((id, v))),
        assoc_map(s.push((id, v))).dom().contains(id),
        s.push((id, v)).remove(key_index(s.push((id, v)), id)) == s,
{
    lemma_assoc_map_push(s, id, v);
    lemma_assoc_map_index(s.push((id, v)), s.len() as int);
    assert(s.push((id, v)).remove(s.len() as int) =~= s);
}

} // verus!
