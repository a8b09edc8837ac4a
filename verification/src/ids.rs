//! Collections keyed by textual ids: a set of ids and a map from ids to values.
//!
//! Both keep their entries in insertion order in vectors and never hold an id
//! twice; their views are the mathematical set and map of those entries.
use vstd::prelude::*;

verus! {

broadcast use vstd::seq_lib::group_seq_properties;

/// Looks for `key` among the views of `items`.
fn position_of(items: &Vec<String>, key: &str) -> (r: Option<usize>)
    ensures
        match r {
            Some(i) => i < items@.len() && items@[i as int]@ == key@,
            None => forall|i: int| 0 <= i < items@.len() ==> items@[i]@ != key@,
        },
{
    let k = key.to_owned();
    let mut i: usize = 0;
    while i < items.len()
        invariant
            i <= items@.len(),
            k@ == key@,
            forall|j: int| 0 <= j < i ==> items@[j]@ != key@,
        decreases items@.len() - i,
    {
        if items[i] == k {
            return Some(i);
        }
        i = i + 1;
    }
    None
}

/// The views of a sequence of strings.
pub open spec fn views_of(items: Seq<String>) -> Seq<Seq<char>> {
    items.map_values(|s: String| s@)
}

/// A set of ids, kept in the order in which they were first inserted.
#[derive(Debug)]
pub struct IdSet {
    items: Vec<String>,
}

impl IdSet {
    /// The ids, in insertion order.
    pub closed spec fn elems(&self) -> Seq<Seq<char>> {
        views_of(self.items@)
    }

    /// No id is held twice.
    pub closed spec fn wf(&self) -> bool {
        self.elems().no_duplicates()
    }

    /// The ids as a set, with the fact that each is held once.
    pub proof fn lemma_view(&self)
        requires
            self.wf(),
        ensures
            self.elems().no_duplicates(),
            self@.finite(),
            self@.len() == self.elems().len(),
            forall|x: Seq<char>| self@.contains(x) <==> self.elems().contains(x),
    {
        self.elems().unique_seq_to_set();
    }

    /// An empty set.
    pub fn new() -> (s: Self)
        ensures
            s.wf(),
            s@ == Set::<Seq<char>>::empty(),
            s.elems() == Seq::<Seq<char>>::empty(),
    {
        let s = IdSet { items: Vec::new() };
        assert(s@ =~= Set::<Seq<char>>::empty());
        assert(s.elems() =~= Seq::<Seq<char>>::empty());
        s
    }

    /// The number of ids.
    pub fn len(&self) -> (r: usize)
        requires
            self.wf(),
        ensures
            r == self@.len(),
            r == self.elems().len(),
    {
        proof {
            self.lemma_view();
        }
        self.items.len()
    }

    /// Whether the set holds no id.
    pub fn is_empty(&self) -> (r: bool)
        requires
            self.wf(),
        ensures
            r == (self@.len() == 0),
            r == (self@ == Set::<Seq<char>>::empty()),
    {
        proof {
            self.lemma_view();
            if self.items@.len() != 0 {
                assert(self@.contains(self.elems()[0]));
            } else {
                assert(self@ =~= Set::<Seq<char>>::empty());
            }
        }
        self.items.len() == 0
    }

    /// Whether `id` is in the set.
    pub fn contains(&self, id: &str) -> (r: bool)
        ensures
            r == self@.contains(id@),
    {
        match position_of(&self.items, id) {
            Some(i) => {
                assert(self.elems()[i as int] == id@);
                true
            },
            None => false,
        }
    }

    /// Adds `id`; returns whether it was not yet in the set.
    pub fn insert(&mut self, id: String) -> (r: bool)
        requires
            old(self).wf(),
        ensures
            final(self).wf(),
            final(self)@ == old(self)@.insert(id@),
            r == !old(self)@.contains(id@),
            final(self).elems() == (if r { old(self).elems().push(id@) } else { old(self).elems() }),
    {
        match position_of(&self.items, id.as_str()) {
            Some(i) => {
                assert(self.elems()[i as int] == id@);
                assert(self@ =~= old(self)@.insert(id@));
                false
            },
            None => {
                let ghost before = self.elems();
                self.items.push(id);
                assert(self.elems() =~= before.push(id@));
                assert(self@ =~= old(self)@.insert(id@));
                true
            },
        }
    }

    /// A set of the ids of `items`, each kept once, in order of first occurrence.
    pub fn from_vec(items: Vec<String>) -> (s: Self)
        ensures
            s.wf(),
            forall|x: Seq<char>| s@.contains(x) <==> views_of(items@).contains(x),
    {
        let mut s = IdSet::new();
        let mut i: usize = 0;
        while i < items.len()
            invariant
                i <= items@.len(),
                s.wf(),
                forall|x: Seq<char>| s@.contains(x) <==> views_of(items@.take(i as int)).contains(x),
            decreases items@.len() - i,
        {
            let item = items[i].clone();
            s.insert(item);
            proof {
                assert(views_of(items@.take(i + 1)) =~= views_of(items@.take(i as int)).push(items@[i as int]@));
            }
            i = i + 1;
        }
        assert(items@.take(i as int) =~= items@);
        s
    }

    /// The id at position `i` of the insertion order.
    pub fn get(&self, i: usize) -> (r: &String)
        requires
            i < self.elems().len(),
        ensures
            r@ == self.elems()[i as int],
    {
        &self.items[i]
    }

    /// The ids, in insertion order.
    pub fn to_vec(&self) -> (r: Vec<String>)
        ensures
            views_of(r@) == self.elems(),
    {
        let r = self.items.clone();
        assert(views_of(r@) =~= self.elems());
        r
    }
}

impl Clone for IdSet {
    fn clone(&self) -> (r: Self)
        ensures
            r.elems() == self.elems(),
            r@ == self@,
            self.wf() ==> r.wf(),
    {
        let r = IdSet { items: self.items.clone() };
        assert(r.elems() =~= self.elems());
        r
    }
}

impl View for IdSet {
    type V = Set<Seq<char>>;

    open spec fn view(&self) -> Set<Seq<char>> {
        self.elems().to_set()
    }
}

} // verus!

verus! {

/// A map from ids to values, kept in the order in which ids were first inserted.
#[derive(Debug)]
pub struct IdMap<V> {
    keys: Vec<String>,
    vals: Vec<V>,
}

impl<V: View> IdMap<V> {
    /// The ids, in insertion order.
    pub closed spec fn key_seq(&self) -> Seq<Seq<char>> {
        views_of(self.keys@)
    }

    /// The values, in the order of their ids.
    pub closed spec fn val_seq(&self) -> Seq<V> {
        self.vals@
    }

    /// As many values as ids, and no id twice.
    pub closed spec fn wf(&self) -> bool {
        &&& self.keys@.len() == self.vals@.len()
        &&& self.key_seq().no_duplicates()
    }

    /// How the view relates to the entries: the key set is the set of ids,
    /// and the id at each position maps to the value at that position.
    pub proof fn lemma_view(&self)
        requires
            self.wf(),
        ensures
            self.key_seq().len() == self.val_seq().len(),
            self.key_seq().no_duplicates(),
            self@.dom().finite(),
            self@.len() == self.key_seq().len(),
            forall|k: Seq<char>| self@.contains_key(k) <==> self.key_seq().contains(k),
            forall|i: int|
                0 <= i < self.key_seq().len() ==> #[trigger] self@[self.key_seq()[i]]
                    == self.val_seq()[i]@,
    {
        assert(self@.dom() =~= self.key_seq().to_set());
        self.key_seq().unique_seq_to_set();
        assert forall|i: int| 0 <= i < self.key_seq().len() implies #[trigger] self@[self.key_seq()[i]]
            == self.val_seq()[i]@ by {
            let k = self.key_seq()[i];
            assert(self.key_seq().contains(k));
            let j = self.key_seq().index_of(k);
            assert(self.key_seq()[j] == k);
        }
    }

    /// An empty map.
    pub fn new() -> (m: Self)
        ensures
            m.wf(),
            m@ == Map::<Seq<char>, V::V>::empty(),
            m.key_seq() == Seq::<Seq<char>>::empty(),
    {
        let m = IdMap { keys: Vec::new(), vals: Vec::new() };
        assert(m@ =~= Map::<Seq<char>, V::V>::empty());
        assert(m.key_seq() =~= Seq::<Seq<char>>::empty());
        m
    }

    /// The number of entries.
    pub fn len(&self) -> (r: usize)
        requires
            self.wf(),
        ensures
            r == self@.len(),
            r == self.key_seq().len(),
    {
        proof {
            self.lemma_view();
        }
        self.keys.len()
    }

    /// Whether the map has no entry.
    pub fn is_empty(&self) -> (r: bool)
        requires
            self.wf(),
        ensures
            r == (self@.len() == 0),
            r == (self@ == Map::<Seq<char>, V::V>::empty()),
    {
        proof {
            self.lemma_view();
            if self.keys@.len() != 0 {
                assert(self@.contains_key(self.key_seq()[0]));
            } else {
                assert(self@ =~= Map::<Seq<char>, V::V>::empty());
            }
        }
        self.keys.len() == 0
    }

    /// The position of `key` in the insertion order, if it is a key.
    pub fn position(&self, key: &str) -> (r: Option<usize>)
        requires
            self.wf(),
        ensures
            match r {
                Some(i) => i < self.key_seq().len() && self.key_seq()[i as int] == key@,
                None => !self@.contains_key(key@),
            },
            r is Some <==> self@.contains_key(key@),
    {
        proof {
            self.lemma_view();
        }
        let r = position_of(&self.keys, key);
        proof {
            if let Some(i) = r {
                assert(self.key_seq()[i as int] == key@);
            }
            if r is None {
                if self.key_seq().contains(key@) {
                    let j = self.key_seq().index_of(key@);
                    assert(self.keys@[j]@ == key@);
                }
            }
        }
        r
    }

    /// Whether `key` has an entry.
    pub fn contains_key(&self, key: &str) -> (r: bool)
        requires
            self.wf(),
        ensures
            r == self@.contains_key(key@),
    {
        self.position(key).is_some()
    }

    /// The value of `key`, if it has an entry.
    pub fn get(&self, key: &str) -> (r: Option<&V>)
        requires
            self.wf(),
        ensures
            r is Some <==> self@.contains_key(key@),
            r matches Some(v) ==> v@ == self@[key@],
    {
        proof {
            self.lemma_view();
        }
        match self.position(key) {
            Some(i) => Some(&self.vals[i]),
            None => None,
        }
    }

    /// The id at position `i` of the insertion order.
    pub fn key_at(&self, i: usize) -> (r: &String)
        requires
            self.wf(),
            i < self.key_seq().len(),
        ensures
            r@ == self.key_seq()[i as int],
    {
        &self.keys[i]
    }

    /// The value at position `i` of the insertion order.
    pub fn value_at(&self, i: usize) -> (r: &V)
        requires
            self.wf(),
            i < self.key_seq().len(),
        ensures
            *r == self.val_seq()[i as int],
            r@ == self@[self.key_seq()[i as int]],
    {
        proof {
            self.lemma_view();
        }
        &self.vals[i]
    }

    /// Sets the value of `key` to `value`: replaces the value of an existing
    /// entry in place, or adds an entry at the end of the order.
    pub fn insert(&mut self, key: String, value: V)
        requires
            old(self).wf(),
        ensures
            final(self).wf(),
            final(self)@ == old(self)@.insert(key@, value@),
            old(self)@.contains_key(key@) ==> final(self).key_seq() == old(self).key_seq(),
            !old(self)@.contains_key(key@) ==> final(self).key_seq() == old(self).key_seq().push(key@),
            old(self)@.contains_key(key@) ==> exists|i: int|
                0 <= i < old(self).key_seq().len() && old(self).key_seq()[i] == key@
                    && #[trigger] final(self).val_seq() == old(self).val_seq().update(i, value),
            !old(self)@.contains_key(key@) ==> final(self).val_seq() == old(self).val_seq().push(value),
    {
        proof {
            old(self).lemma_view();
        }
        match self.position(key.as_str()) {
            Some(i) => {
                self.vals.set(i, value);
                proof {
                    assert(self.key_seq() =~= old(self).key_seq());
                    assert(self.val_seq() == old(self).val_seq().update(i as int, value));
                    self.lemma_view();
                    assert forall|k: Seq<char>| #[trigger] self@.contains_key(k) implies self@[k]
                        == old(self)@.insert(key@, value@)[k] by {
                        let j = self.key_seq().index_of(k);
                        assert(self@[self.key_seq()[j]] == self.val_seq()[j]@);
                        if j != i {
                            assert(old(self)@[old(self).key_seq()[j]] == old(self).val_seq()[j]@);
                        }
                    }
                    assert(self@ =~= old(self)@.insert(key@, value@));
                }
            },
            None => {
                let ghost ks = self.key_seq();
                self.keys.push(key);
                self.vals.push(value);
                proof {
                    assert(self.key_seq() =~= ks.push(key@));
                    assert(self.key_seq().no_duplicates());
                    self.lemma_view();
                    let n = ks.len() as int;
                    assert(self@[self.key_seq()[n]] == self.val_seq()[n]@);
                    assert forall|k: Seq<char>| #[trigger] self@.contains_key(k) implies self@[k]
                        == old(self)@.insert(key@, value@)[k] by {
                        let j = self.key_seq().index_of(k);
                        assert(self@[self.key_seq()[j]] == self.val_seq()[j]@);
                        if j != n {
                            assert(old(self)@[old(self).key_seq()[j]] == old(self).val_seq()[j]@);
                        }
                    }
                    assert(self@ =~= old(self)@.insert(key@, value@));
                }
            },
        }
    }
}

impl<V: View> View for IdMap<V> {
    type V = Map<Seq<char>, V::V>;

    open spec fn view(&self) -> Map<Seq<char>, V::V> {
        Map::new(
            |k: Seq<char>| self.key_seq().contains(k),
            |k: Seq<char>| self.val_seq()[self.key_seq().index_of(k)]@,
        )
    }
}

} // verus!
