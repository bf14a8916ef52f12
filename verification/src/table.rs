//! A table keyed by text: each key at most once, entries in the order in
//! which their keys first came.
use vstd::prelude::*;

verus! {

pub struct KeyedTable<V> {
    entries: Vec<(String, V)>,
}

/// No key occurs twice among `entries`.
pub open spec fn keys_unique<V>(entries: Seq<(Seq<char>, V)>) -> bool {
    forall|i: int, j: int| 0 <= i < j < entries.len() ==> entries[i].0 != entries[j].0
}

/// The map that a list of entries with distinct keys stands for.
pub open spec fn entries_map<V>(entries: Seq<(Seq<char>, V)>) -> Map<Seq<char>, V> {
    Map::new(
        |k: Seq<char>| exists|i: int| 0 <= i < entries.len() && entries[i].0 == k,
        |k: Seq<char>| entries[choose|i: int| 0 <= i < entries.len() && entries[i].0 == k].1,
    )
}

impl<V> KeyedTable<V> {
    /// The entries, keys by their text, in table order.
    pub closed spec fn entries(&self) -> Seq<(Seq<char>, V)> {
        self.entries@.map_values(|e: (String, V)| (e.0@, e.1))
    }

    /// No key occurs twice.
    #[verifier::type_invariant]
    pub open spec fn wf(&self) -> bool {
        keys_unique(self.entries())
    }
}

impl<V> View for KeyedTable<V> {
    type V = Map<Seq<char>, V>;

    open spec fn view(&self) -> Map<Seq<char>, V> {
        entries_map(self.entries())
    }
}

/// In a list of entries with distinct keys, the entry at `i` is what the
/// map gives for its key.
pub proof fn lemma_entries_map_at<V>(entries: Seq<(Seq<char>, V)>, i: int)
    requires
        keys_unique(entries),
        0 <= i < entries.len(),
    ensures
        entries_map(entries).dom().contains(entries[i].0),
        entries_map(entries)[entries[i].0] == entries[i].1,
{
    let k = entries[i].0;
    assert(exists|j: int| 0 <= j < entries.len() && entries[j].0 == k);
    let c = choose|j: int| 0 <= j < entries.len() && entries[j].0 == k;
    if c != i {
        if c < i {
            assert(entries[c].0 != entries[i].0);
        } else {
            assert(entries[i].0 != entries[c].0);
        }
    }
}

/// Every entry is in the map, and every key of the map is an entry's.
pub proof fn lemma_entries_map<V>(entries: Seq<(Seq<char>, V)>)
    requires
        keys_unique(entries),
    ensures
        forall|i: int| #![trigger entries[i]] 0 <= i < entries.len() ==> entries_map(entries).dom().contains(entries[i].0)
            && entries_map(entries)[entries[i].0] == entries[i].1,
        forall|k: Seq<char>| #[trigger] entries_map(entries).dom().contains(k) ==> exists|i: int| 0 <= i < entries.len() && entries[i].0 == k,
{
    assert forall|i: int| #![trigger entries[i]] 0 <= i < entries.len() implies entries_map(entries).dom().contains(entries[i].0)
        && entries_map(entries)[entries[i].0] == entries[i].1 by {
        lemma_entries_map_at(entries, i);
    }
}

proof fn lemma_entries_map_push<V>(entries: Seq<(Seq<char>, V)>, k: Seq<char>, v: V)
    requires
        keys_unique(entries),
        !entries_map(entries).dom().contains(k),
    ensures
        keys_unique(entries.push((k, v))),
        entries_map(entries.push((k, v))) == entries_map(entries).insert(k, v),
{
    let n = entries.push((k, v));
    assert forall|i: int| 0 <= i < entries.len() implies entries[i].0 != k by {
        lemma_entries_map_at(entries, i);
    }
    assert(keys_unique(n)) by {
        assert forall|i: int, j: int| 0 <= i < j < n.len() implies n[i].0 != n[j].0 by {
            if j == entries.len() {
                assert(n[i] == entries[i]);
            } else {
                assert(n[i] == entries[i]);
                assert(n[j] == entries[j]);
            }
        }
    }
    let m1 = entries_map(n);
    let m2 = entries_map(entries).insert(k, v);
    assert forall|key: Seq<char>| m1.dom().contains(key) <==> m2.dom().contains(key) by {
        if m1.dom().contains(key) {
            let i = choose|i: int| 0 <= i < n.len() && n[i].0 == key;
            if i < entries.len() {
                assert(entries[i] == n[i]);
            } else {
                assert(n[i] == (k, v));
            }
        }
        if key == k {
            assert(n[entries.len() as int].0 == k);
        }
        if m2.dom().contains(key) && key != k {
            let i = choose|i: int| 0 <= i < entries.len() && entries[i].0 == key;
            assert(n[i] == entries[i]);
        }
    }
    assert forall|key: Seq<char>| m1.dom().contains(key) implies m1[key] == m2[key] by {
        let i = choose|i: int| 0 <= i < n.len() && n[i].0 == key;
        lemma_entries_map_at(n, i);
        if i < entries.len() {
            assert(entries[i] == n[i]);
            lemma_entries_map_at(entries, i);
        } else {
            assert(n[i] == (k, v));
        }
    }
    assert(m1 =~= m2);
}

proof fn lemma_entries_map_update<V>(entries: Seq<(Seq<char>, V)>, i: int, v: V)
    requires
        keys_unique(entries),
        0 <= i < entries.len(),
    ensures
        keys_unique(entries.update(i, (entries[i].0, v))),
        entries_map(entries.update(i, (entries[i].0, v))) == entries_map(entries).insert(entries[i].0, v),
{
    let k = entries[i].0;
    let n = entries.update(i, (k, v));
    assert(keys_unique(n)) by {
        assert forall|a: int, b: int| 0 <= a < b < n.len() implies n[a].0 != n[b].0 by {
            assert(n[a].0 == entries[a].0);
            assert(n[b].0 == entries[b].0);
        }
    }
    let m1 = entries_map(n);
    let m2 = entries_map(entries).insert(k, v);
    lemma_entries_map_at(entries, i);
    assert forall|key: Seq<char>| m1.dom().contains(key) <==> m2.dom().contains(key) by {
        if m1.dom().contains(key) {
            let j = choose|j: int| 0 <= j < n.len() && n[j].0 == key;
            assert(entries[j].0 == key);
        }
        if m2.dom().contains(key) && key != k {
            let j = choose|j: int| 0 <= j < entries.len() && entries[j].0 == key;
            assert(n[j].0 == key);
        }
        if key == k {
            assert(n[i].0 == key);
        }
    }
    assert forall|key: Seq<char>| m1.dom().contains(key) implies m1[key] == m2[key] by {
        let j = choose|j: int| 0 <= j < n.len() && n[j].0 == key;
        lemma_entries_map_at(n, j);
        if j != i {
            assert(entries[j] == n[j]);
            lemma_entries_map_at(entries, j);
        }
    }
    assert(m1 =~= m2);
}

proof fn lemma_entries_map_remove<V>(entries: Seq<(Seq<char>, V)>, i: int)
    requires
        keys_unique(entries),
        0 <= i < entries.len(),
    ensures
        keys_unique(entries.remove(i)),
        entries_map(entries.remove(i)) == entries_map(entries).remove(entries[i].0),
{
    let k = entries[i].0;
    let n = entries.remove(i);
    assert(forall|j: int| 0 <= j < n.len() ==> #[trigger] n[j] == entries[if j < i { j } else { j + 1 }]);
    assert(keys_unique(n)) by {
        assert forall|a: int, b: int| 0 <= a < b < n.len() implies n[a].0 != n[b].0 by {
            let a2 = if a < i { a } else { a + 1 };
            let b2 = if b < i { b } else { b + 1 };
            assert(n[a] == entries[a2]);
            assert(n[b] == entries[b2]);
        }
    }
    let m1 = entries_map(n);
    let m2 = entries_map(entries).remove(k);
    assert forall|key: Seq<char>| m1.dom().contains(key) <==> m2.dom().contains(key) by {
        if m1.dom().contains(key) {
            let j = choose|j: int| 0 <= j < n.len() && n[j].0 == key;
            let j2 = if j < i { j } else { j + 1 };
            assert(entries[j2].0 == key);
            assert(entries[j2].0 != entries[i].0);
        }
        if m2.dom().contains(key) {
            let j = choose|j: int| 0 <= j < entries.len() && entries[j].0 == key;
            assert(j != i);
            let j1 = if j < i { j } else { j - 1 };
            assert(n[j1].0 == key);
        }
    }
    assert forall|key: Seq<char>| m1.dom().contains(key) implies m1[key] == m2[key] by {
        let j = choose|j: int| 0 <= j < n.len() && n[j].0 == key;
        lemma_entries_map_at(n, j);
        let j2 = if j < i { j } else { j + 1 };
        lemma_entries_map_at(entries, j2);
    }
    assert(m1 =~= m2);
}

/// The keys, by their text, that a list of strings holds.
pub open spec fn key_set(keys: Seq<String>) -> Set<Seq<char>> {
    Set::new(|k: Seq<char>| exists|j: int| #![trigger keys[j]] 0 <= j < keys.len() && keys[j]@ == k)
}

impl<V> KeyedTable<V> {
    /// An empty table.
    pub fn new() -> (t: Self)
        ensures
            t@ == Map::<Seq<char>, V>::empty(),
            t.entries().len() == 0,
    {
        let t = KeyedTable { entries: Vec::new() };
        proof {
            assert(t.entries() =~= Seq::<(Seq<char>, V)>::empty());
            assert(t@ =~= Map::<Seq<char>, V>::empty());
        }
        t
    }

    /// The entries have distinct keys, and the table is the map they stand for.
    pub proof fn lemma_view(&self)
        requires
            self.wf(),
        ensures
            keys_unique(self.entries()),
            forall|i: int| #![trigger self.entries()[i]] 0 <= i < self.entries().len() ==> self@.dom().contains(self.entries()[i].0)
                && self@[self.entries()[i].0] == self.entries()[i].1,
            forall|k: Seq<char>| #[trigger] self@.dom().contains(k) ==> exists|i: int| 0 <= i < self.entries().len() && self.entries()[i].0 == k,
    {
        lemma_entries_map(self.entries());
    }

    /// The number of entries.
    pub fn len(&self) -> (n: usize)
        ensures
            n == self.entries().len(),
    {
        self.entries.len()
    }

    /// The key of the entry at `i`.
    pub fn key_at(&self, i: usize) -> (k: &String)
        requires
            i < self.entries().len(),
        ensures
            k@ == self.entries()[i as int].0,
    {
        &self.entries[i].0
    }

    /// The value of the entry at `i`.
    pub fn value_at(&self, i: usize) -> (v: &V)
        requires
            i < self.entries().len(),
        ensures
            *v == self.entries()[i as int].1,
    {
        &self.entries[i].1
    }

    /// Where `key` stands among the entries.
    pub fn index_of(&self, key: &String) -> (r: Option<usize>)
        ensures
            r matches Some(i) ==> i < self.entries().len() && self.entries()[i as int].0 == key@,
            r is None ==> !self@.dom().contains(key@),
    {
        let mut i: usize = 0;
        while i < self.entries.len()
            invariant
                i <= self.entries().len(),
                self.entries().len() == self.entries@.len(),
                forall|j: int| 0 <= j < i ==> self.entries()[j].0 != key@,
            decreases self.entries@.len() - i,
        {
            if self.entries[i].0 == *key {
                return Some(i);
            }
            proof {
                assert(self.entries()[i as int].0 == self.entries@[i as int].0@);
            }
            i = i + 1;
        }
        proof {
            if self@.dom().contains(key@) {
                let j = choose|j: int| 0 <= j < self.entries().len() && self.entries()[j].0 == key@;
                assert(self.entries()[j].0 != key@);
            }
        }
        None
    }

    /// Whether the table has `key`.
    pub fn contains_key(&self, key: &String) -> (b: bool)
        ensures
            b == self@.dom().contains(key@),
    {
        proof {
            use_type_invariant(self);
            self.lemma_view();
        }
        match self.index_of(key) {
            Some(_) => true,
            None => false,
        }
    }

    /// The value at `key`.
    pub fn get(&self, key: &String) -> (r: Option<&V>)
        ensures
            r is Some <==> self@.dom().contains(key@),
            r matches Some(v) ==> *v == self@[key@],
    {
        proof {
            use_type_invariant(self);
            self.lemma_view();
        }
        match self.index_of(key) {
            Some(i) => Some(&self.entries[i].1),
            None => None,
        }
    }

    /// Sets the value at `key`, adding the key if it is new.
    pub fn insert(&mut self, key: String, value: V)
        ensures
            final(self)@ == old(self)@.insert(key@, value),
    {
        proof {
            use_type_invariant(&*self);
        }
        match self.index_of(&key) {
            Some(i) => {
                let ghost old_entries = self.entries();
                proof {
                    lemma_entries_map_update(old_entries, i as int, value);
                }
                let mut es: Vec<(String, V)> = Vec::new();
                std::mem::swap(&mut es, &mut self.entries);
                es.set(i, (key, value));
                proof {
                    assert(es@.map_values(|e: (String, V)| (e.0@, e.1)) =~= old_entries.update(i as int, (old_entries[i as int].0, value)));
                }
                self.entries = es;
                proof {
                    assert(self.entries() =~= old_entries.update(i as int, (old_entries[i as int].0, value)));
                }
            },
            None => {
                let ghost old_entries = self.entries();
                let ghost k = key@;
                proof {
                    lemma_entries_map_push(old_entries, k, value);
                }
                let mut es: Vec<(String, V)> = Vec::new();
                std::mem::swap(&mut es, &mut self.entries);
                es.push((key, value));
                proof {
                    assert(es@.map_values(|e: (String, V)| (e.0@, e.1)) =~= old_entries.push((k, value)));
                }
                self.entries = es;
                proof {
                    assert(self.entries() =~= old_entries.push((k, value)));
                }
            },
        }
    }

    /// Removes `key` and gives back its value, if it had one.
    pub fn remove(&mut self, key: &String) -> (r: Option<V>)
        ensures
            final(self)@ == old(self)@.remove(key@),
            r is Some <==> old(self)@.dom().contains(key@),
            r matches Some(v) ==> v == old(self)@[key@],
    {
        proof {
            use_type_invariant(&*self);
            self.lemma_view();
        }
        match self.index_of(key) {
            Some(i) => {
                let ghost old_entries = self.entries();
                proof {
                    lemma_entries_map_remove(old_entries, i as int);
                    lemma_entries_map_at(old_entries, i as int);
                }
                let mut es: Vec<(String, V)> = Vec::new();
                std::mem::swap(&mut es, &mut self.entries);
                let (_, v) = es.remove(i);
                proof {
                    assert(es@.map_values(|e: (String, V)| (e.0@, e.1)) =~= old_entries.remove(i as int));
                }
                self.entries = es;
                proof {
                    assert(self.entries() =~= old_entries.remove(i as int));
                }
                Some(v)
            },
            None => {
                proof {
                    assert(old(self)@.remove(key@) =~= old(self)@);
                }
                None
            },
        }
    }

    /// Removes every key of `keys`.
    pub fn remove_all(&mut self, keys: &Vec<String>)
        ensures
            final(self)@ == old(self)@.remove_keys(key_set(keys@)),
    {
        let ghost orig = self@;
        let mut j: usize = 0;
        while j < keys.len()
            invariant
                j <= keys@.len(),
                self@ == orig.remove_keys(key_set(keys@.take(j as int))),
            decreases keys@.len() - j,
        {
            let ghost before = self@;
            self.remove(&keys[j]);
            proof {
                assert(key_set(keys@.take(j + 1)) =~= key_set(keys@.take(j as int)).insert(keys@[j as int]@)) by {
                    assert forall|k: Seq<char>| key_set(keys@.take(j + 1)).contains(k) implies key_set(keys@.take(j as int)).insert(keys@[j as int]@).contains(k) by {
                        let a = choose|a: int| #![trigger keys@.take(j + 1)[a]] 0 <= a < j + 1 && keys@.take(j + 1)[a]@ == k;
                        if a < j {
                            assert(keys@.take(j as int)[a] == keys@.take(j + 1)[a]);
                        }
                    }
                    assert forall|k: Seq<char>| key_set(keys@.take(j as int)).insert(keys@[j as int]@).contains(k) implies key_set(keys@.take(j + 1)).contains(k) by {
                        if k == keys@[j as int]@ {
                            assert(keys@.take(j + 1)[j as int] == keys@[j as int]);
                        } else {
                            let a = choose|a: int| #![trigger keys@.take(j as int)[a]] 0 <= a < j && keys@.take(j as int)[a]@ == k;
                            assert(keys@.take(j + 1)[a] == keys@.take(j as int)[a]);
                        }
                    }
                }
                assert(self@ =~= orig.remove_keys(key_set(keys@.take(j + 1))));
            }
            j = j + 1;
        }
        proof {
            assert(keys@.take(keys@.len() as int) =~= keys@);
        }
    }
}

} // verus!
