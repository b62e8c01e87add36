//! A map keyed by text in which a later insert replaces an earlier one.
//!
//! It is kept as a list of pairs rather than as std's `HashMap`: every
//! fact vstd states of `HashMap` holds only where `obeys_key_model` holds
//! of the key type, which vstd grants to primitive types (and boxes of
//! them) only; for `String` it would have to be assumed, and `assume` has
//! no place here.
use vstd::prelude::*;

verus! {

pub struct TextMap<V> {
    entries: Vec<(String, V)>,
}

pub open spec fn map_of<V>(entries: Seq<(String, V)>) -> Map<Seq<char>, V>
    decreases entries.len(),
{
    if entries.len() == 0 {
        Map::empty()
    } else {
        map_of(entries.drop_last()).insert(entries.last().0@, entries.last().1)
    }
}

impl<V> View for TextMap<V> {
    type V = Map<Seq<char>, V>;

    closed spec fn view(&self) -> Map<Seq<char>, V> {
        map_of(self.entries@)
    }
}

proof fn lemma_map_of_suffix_free<V>(entries: Seq<(String, V)>, i: int, key: Seq<char>)
    requires
        0 <= i <= entries.len(),
        forall|j: int| i <= j < entries.len() ==> (#[trigger] entries[j]).0@ != key,
    ensures
        map_of(entries).contains_key(key) == map_of(entries.take(i)).contains_key(key),
        map_of(entries).contains_key(key) ==> map_of(entries)[key] == map_of(entries.take(i))[key],
    decreases entries.len(),
{
    if i == entries.len() {
        assert(entries.take(i) =~= entries);
    } else {
        let p = entries.drop_last();
        assert forall|j: int| i <= j < p.len() implies (#[trigger] p[j]).0@ != key by {
            assert(p[j] == entries[j]);
        }
        lemma_map_of_suffix_free(p, i, key);
        assert(p.take(i) =~= entries.take(i));
        assert(entries[entries.len() - 1].0@ != key);
    }
}

impl<V> TextMap<V> {
    pub fn new() -> (m: Self)
        ensures
            m@ == Map::<Seq<char>, V>::empty(),
            m.pairs_view() == Seq::<(String, V)>::empty(),
    {
        TextMap { entries: Vec::new() }
    }

    /// Sets the value of `key`, replacing any earlier one.
    pub fn insert(&mut self, key: String, value: V)
        ensures
            final(self)@ == old(self)@.insert(key@, value),
            final(self).pairs_view() == old(self).pairs_view().push((key, value)),
    {
        let ghost before = self.entries@;
        self.entries.push((key, value));
        assert(self.entries@.drop_last() =~= before);
    }

    /// The value of `key`, if it has one.
    pub fn get(&self, key: &str) -> (r: Option<&V>)
        ensures
            match r {
                Some(v) => self@.contains_key(key@) && self@[key@] == *v,
                None => !self@.contains_key(key@),
            },
    {
        let mut i = self.entries.len();
        while i > 0
            invariant
                i <= self.entries@.len(),
                forall|j: int| i <= j < self.entries@.len() ==> (#[trigger] self.entries@[j]).0@ != key@,
            decreases i,
        {
            let ghost t = self.entries@.take(i as int);
            assert(t.drop_last() =~= self.entries@.take(i - 1));
            assert(t.last() == self.entries@[i - 1]);
            if crate::text::str_eq(self.entries[i - 1].0.as_str(), key) {
                proof {
                    lemma_map_of_suffix_free(self.entries@, i as int, key@);
                    assert(map_of(t) == map_of(t.drop_last()).insert(t.last().0@, t.last().1));
                }
                return Some(&self.entries[i - 1].1);
            }
            i -= 1;
        }
        proof {
            lemma_map_of_suffix_free(self.entries@, 0, key@);
        }
        assert(self.entries@.take(0) =~= Seq::<(String, V)>::empty());
        None
    }

    /// The entries in the order they were inserted; a later entry for a
    /// key replaces the earlier ones.
    pub closed spec fn pairs_view(&self) -> Seq<(String, V)> {
        self.entries@
    }

    /// Removes `key` and its value.
    pub fn remove(&mut self, key: &str)
        ensures
            final(self)@ == old(self)@.remove(key@),
    {
        let ghost start = map_of(self.entries@).remove(key@);
        let mut i: usize = 0;
        while i < self.entries.len()
            invariant
                i <= self.entries@.len(),
                map_of(self.entries@).remove(key@) == start,
                forall|j: int| 0 <= j < i ==> (#[trigger] self.entries@[j]).0@ != key@,
            decreases self.entries@.len() - i,
        {
            if crate::text::str_eq(self.entries[i].0.as_str(), key) {
                proof { lemma_map_of_remove_index(self.entries@, i as int, key@); }
                let ghost before = self.entries@;
                let _ = self.entries.remove(i);
                assert forall|j: int| 0 <= j < i implies (#[trigger] self.entries@[j]).0@ != key@ by {
                    assert(self.entries@[j] == before[j]);
                }
            } else {
                i += 1;
            }
        }
        proof {
            lemma_map_of_dom(self.entries@, key@);
            assert(map_of(self.entries@) =~= map_of(self.entries@).remove(key@));
        }
    }

    pub proof fn lemma_view_is_map_of(&self)
        ensures
            self@ == map_of(self.pairs_view()),
    {
    }

    pub fn pairs(&self) -> (r: &Vec<(String, V)>)
        ensures
            r@ == self.pairs_view(),
            map_of(r@) == self@,
    {
        &self.entries
    }

    /// The keys of the map, each at least once.
    pub fn keys(&self) -> (r: Vec<String>)
        ensures
            forall|k: Seq<char>| self@.contains_key(k) <==> exists|j: int| 0 <= j < r@.len() && (#[trigger] r@[j])@ == k,
    {
        let mut r: Vec<String> = Vec::new();
        let mut i: usize = 0;
        while i < self.entries.len()
            invariant
                i <= self.entries@.len(),
                r@.len() == i,
                forall|j: int| 0 <= j < i ==> (#[trigger] r@[j])@ == self.entries@[j].0@,
            decreases self.entries@.len() - i,
        {
            r.push(self.entries[i].0.clone());
            i += 1;
        }
        proof {
            assert forall|k: Seq<char>| self@.contains_key(k) <==> exists|j: int| 0 <= j < r@.len() && (#[trigger] r@[j])@ == k by {
                lemma_map_of_dom(self.entries@, k);
                if exists|j: int| 0 <= j < r@.len() && (#[trigger] r@[j])@ == k {
                    let j = choose|j: int| 0 <= j < r@.len() && (#[trigger] r@[j])@ == k;
                    assert(self.entries@[j].0@ == k);
                }
                if self@.contains_key(k) {
                    let j = choose|j: int| 0 <= j < self.entries@.len() && (#[trigger] self.entries@[j]).0@ == k;
                    assert(r@[j]@ == k);
                }
            }
        }
        r
    }

    pub fn contains_key(&self, key: &str) -> (r: bool)
        ensures
            r == self@.contains_key(key@),
    {
        self.get(key).is_some()
    }

    /// Whether the map has no entry.
    pub fn is_empty(&self) -> (r: bool)
        ensures
            r == (self@.dom().len() == 0),
    {
        proof {
            lemma_map_of_finite(self.entries@);
        }
        if self.entries.len() == 0 {
            assert(self@ =~= Map::<Seq<char>, V>::empty());
            true
        } else {
            let ghost last = self.entries@.last();
            assert(self@.contains_key(last.0@));
            false
        }
    }
}

/// A key is in the map exactly when some entry carries it.
proof fn lemma_map_of_remove_index<V>(entries: Seq<(String, V)>, i: int, key: Seq<char>)
    requires
        0 <= i < entries.len(),
        entries[i].0@ == key,
    ensures
        map_of(entries.remove(i)).remove(key) == map_of(entries).remove(key),
    decreases entries.len(),
{
    let l = entries.last();
    if i == entries.len() - 1 {
        assert(entries.remove(i) =~= entries.drop_last());
        assert(map_of(entries).remove(key) =~= map_of(entries.drop_last()).remove(key));
    } else {
        let d = entries.drop_last();
        assert(d.len() == entries.len() - 1);
        assert(d[i] == entries[i]);
        lemma_map_of_remove_index(d, i, key);
        let r = entries.remove(i);
        assert(r.len() == entries.len() - 1);
        assert(r.drop_last() =~= d.remove(i));
        assert(r.last() == l);
        let x = map_of(d.remove(i));
        let y = map_of(d);
        assert(map_of(r) == x.insert(l.0@, l.1));
        assert(map_of(entries) == y.insert(l.0@, l.1));
        assert(x.remove(key) == y.remove(key));
        assert(x.insert(l.0@, l.1).remove(key) =~= y.insert(l.0@, l.1).remove(key)) by {
            if l.0@ != key {
                assert(x.insert(l.0@, l.1).remove(key) =~= x.remove(key).insert(l.0@, l.1));
                assert(y.insert(l.0@, l.1).remove(key) =~= y.remove(key).insert(l.0@, l.1));
            } else {
                assert(x.insert(l.0@, l.1).remove(key) =~= x.remove(key));
                assert(y.insert(l.0@, l.1).remove(key) =~= y.remove(key));
            }
        }
    }
}

pub proof fn lemma_map_of_dom<V>(entries: Seq<(String, V)>, key: Seq<char>)
    ensures
        map_of(entries).contains_key(key) <==> exists|j: int| 0 <= j < entries.len() && (#[trigger] entries[j]).0@ == key,
    decreases entries.len(),
{
    if entries.len() > 0 {
        let p = entries.drop_last();
        lemma_map_of_dom(p, key);
        if map_of(p).contains_key(key) {
            let j = choose|j: int| 0 <= j < p.len() && (#[trigger] p[j]).0@ == key;
            assert(entries[j] == p[j]);
        }
        if exists|j: int| 0 <= j < entries.len() && (#[trigger] entries[j]).0@ == key {
            let j = choose|j: int| 0 <= j < entries.len() && (#[trigger] entries[j]).0@ == key;
            if j < entries.len() - 1 {
                assert(p[j] == entries[j]);
            }
        }
    }
}

proof fn lemma_map_of_finite<V>(entries: Seq<(String, V)>)
    ensures
        map_of(entries).dom().finite(),
    decreases entries.len(),
{
    if entries.len() > 0 {
        lemma_map_of_finite(entries.drop_last());
    }
}

} // verus!
