//! A table keyed by strings, kept as a vector of pairs with distinct keys:
//! the server's key/value data and its subscriber lists.

use vstd::prelude::*;

verus! {

/// A map from strings to values. Its pairs keep the order in which their
/// keys were first inserted; no key occurs twice.
///
/// It stands where a `HashMap<String, _>` would: vstd gives the hash map's
/// methods their contracts only for key types whose hashing it models
/// (`obeys_key_model`: integers, `bool` and boxes of them), which `String` is
/// not, so nothing about its contents could be proved.
pub struct Table<V> {
    entries: Vec<(String, V)>,
}

/// The map that a sequence of pairs stands for: each pair is inserted in
/// turn, so that a later pair wins over an earlier one with the same key.
pub open spec fn table_map<V: View>(e: Seq<(String, V)>) -> Map<Seq<char>, V::V>
    decreases e.len(),
{
    if e.len() == 0 {
        Map::empty()
    } else {
        table_map(e.drop_last()).insert(e.last().0@, e.last().1@)
    }
}

/// The keys of a sequence of pairs, in order.
pub open spec fn table_keys<V>(e: Seq<(String, V)>) -> Seq<Seq<char>> {
    Seq::new(e.len(), |i: int| e[i].0@)
}

/// No key occurs twice among the pairs.
pub open spec fn keys_distinct<V>(e: Seq<(String, V)>) -> bool {
    forall|i: int, j: int| 0 <= i < j < e.len() ==> #[trigger] e[i].0@ != #[trigger] e[j].0@
}

proof fn lemma_table_dom<V: View>(e: Seq<(String, V)>, k: Seq<char>)
    ensures
        table_map(e).dom().contains(k) <==> exists|i: int| 0 <= i < e.len() && #[trigger] e[i].0@ == k,
    decreases e.len(),
{
    if e.len() != 0 {
        lemma_table_dom(e.drop_last(), k);
        if table_map(e.drop_last()).dom().contains(k) {
            let i = choose|i: int| 0 <= i < e.drop_last().len() && #[trigger] e.drop_last()[i].0@ == k;
            assert(e[i].0@ == k);
        }
        if exists|i: int| 0 <= i < e.len() && #[trigger] e[i].0@ == k {
            let i = choose|i: int| 0 <= i < e.len() && #[trigger] e[i].0@ == k;
            if i < e.len() - 1 {
                assert(e.drop_last()[i].0@ == k);
            }
        }
    }
}

proof fn lemma_drop_last_distinct<V>(e: Seq<(String, V)>)
    requires
        keys_distinct(e),
        e.len() > 0,
    ensures
        keys_distinct(e.drop_last()),
{
    let d = e.drop_last();
    assert forall|a: int, b: int| 0 <= a < b < d.len() implies #[trigger] d[a].0@ != #[trigger] d[b].0@ by {
        assert(d[a] == e[a] && d[b] == e[b]);
    }
}

proof fn lemma_table_at<V: View>(e: Seq<(String, V)>, i: int)
    requires
        keys_distinct(e),
        0 <= i < e.len(),
    ensures
        table_map(e).dom().contains(e[i].0@),
        table_map(e)[e[i].0@] == e[i].1@,
    decreases e.len(),
{
    lemma_table_dom(e, e[i].0@);
    if i < e.len() - 1 {
        let d = e.drop_last();
        assert(d[i] == e[i]);
        lemma_drop_last_distinct(e);
        lemma_table_at(d, i);
        assert(e.last() == e[e.len() - 1]);
    }
}

proof fn lemma_table_update<V: View>(e: Seq<(String, V)>, j: int, p: (String, V))
    requires
        keys_distinct(e),
        0 <= j < e.len(),
        e[j].0@ == p.0@,
    ensures
        table_map(e.update(j, p)) == table_map(e).insert(p.0@, p.1@),
        keys_distinct(e.update(j, p)),
        table_keys(e.update(j, p)) == table_keys(e),
    decreases e.len(),
{
    let u = e.update(j, p);
    assert forall|a: int, b: int| 0 <= a < b < u.len() implies #[trigger] u[a].0@ != #[trigger] u[b].0@ by {
        assert(e[a].0@ != e[b].0@);
    }
    assert(table_keys(u) =~= table_keys(e));
    if j == e.len() - 1 {
        assert(u.drop_last() =~= e.drop_last());
        assert(table_map(u) =~= table_map(e).insert(p.0@, p.1@));
    } else {
        let d = e.drop_last();
        lemma_drop_last_distinct(e);
        assert(u.drop_last() =~= d.update(j, p));
        lemma_table_update(d, j, p);
        assert(e.last().0@ != p.0@) by {
            assert(e[j].0@ != e[e.len() - 1].0@);
        }
        assert(u.last() == e.last());
        assert(table_map(u) =~= table_map(e).insert(p.0@, p.1@));
    }
}

proof fn lemma_table_len<V: View>(e: Seq<(String, V)>)
    requires
        keys_distinct(e),
    ensures
        table_map(e).dom().finite(),
        table_map(e).dom().len() == e.len(),
    decreases e.len(),
{
    if e.len() != 0 {
        let d = e.drop_last();
        lemma_drop_last_distinct(e);
        lemma_table_len(d);
        lemma_table_dom(d, e.last().0@);
        if table_map(d).dom().contains(e.last().0@) {
            let i = choose|i: int| 0 <= i < d.len() && #[trigger] d[i].0@ == e.last().0@;
            assert(e[i].0@ != e[e.len() - 1].0@);
        }
    }
}

impl<V: View> View for Table<V> {
    type V = Map<Seq<char>, V::V>;

    closed spec fn view(&self) -> Map<Seq<char>, V::V> {
        table_map(self.entries@)
    }
}

impl<V: View> Table<V> {
    /// The table's keys, in the order in which they were first inserted.
    pub closed spec fn keys(&self) -> Seq<Seq<char>> {
        table_keys(self.entries@)
    }

    /// The pairs are distinct in their keys.
    pub closed spec fn wf(&self) -> bool {
        keys_distinct(self.entries@)
    }

    /// The keys in order are exactly the keys of the map, each once.
    pub proof fn lemma_keys(&self)
        requires
            self.wf(),
        ensures
            self.keys().no_duplicates(),
            self@.dom().finite(),
            self@.dom().len() == self.keys().len(),
            forall|k: Seq<char>| #[trigger] self@.dom().contains(k) <==> self.keys().contains(k),
    {
        let e = self.entries@;
        lemma_table_len(e);
        assert forall|k: Seq<char>| #[trigger] self@.dom().contains(k) <==> self.keys().contains(k) by {
            lemma_table_dom(e, k);
            if self.keys().contains(k) {
                let i = choose|i: int| 0 <= i < self.keys().len() && self.keys()[i] == k;
                assert(e[i].0@ == k);
            }
            if self@.dom().contains(k) {
                let i = choose|i: int| 0 <= i < e.len() && #[trigger] e[i].0@ == k;
                assert(self.keys()[i] == k);
            }
        }
        assert forall|a: int, b: int| 0 <= a < self.keys().len() && 0 <= b < self.keys().len() && a != b
            implies self.keys()[a] != self.keys()[b] by {
            if a < b {
                assert(e[a].0@ != e[b].0@);
            } else {
                assert(e[b].0@ != e[a].0@);
            }
        }
    }

    /// An empty table.
    pub fn new() -> (r: Self)
        ensures
            r.wf(),
            r@ == Map::<Seq<char>, V::V>::empty(),
            r.keys() == Seq::<Seq<char>>::empty(),
    {
        let r = Table { entries: Vec::new() };
        assert(r.keys() =~= Seq::<Seq<char>>::empty());
        r
    }

    /// The number of keys.
    pub fn len(&self) -> (r: usize)
        requires
            self.wf(),
        ensures
            r == self@.dom().len(),
            r == self.keys().len(),
    {
        proof {
            lemma_table_len(self.entries@);
        }
        self.entries.len()
    }

    fn find(&self, key: &String) -> (r: Option<usize>)
        ensures
            match r {
                Some(j) => j < self.entries@.len() && self.entries@[j as int].0@ == key@,
                None => forall|i: int| 0 <= i < self.entries@.len() ==> #[trigger] self.entries@[i].0@ != key@,
            },
    {
        let mut i: usize = 0;
        while i < self.entries.len()
            invariant
                i <= self.entries@.len(),
                forall|k: int| 0 <= k < i ==> #[trigger] self.entries@[k].0@ != key@,
            decreases self.entries@.len() - i,
        {
            if self.entries[i].0 == *key {
                return Some(i);
            }
            i += 1;
        }
        None
    }

    /// The value of `key`, if the table has it.
    pub fn get(&self, key: &String) -> (r: Option<&V>)
        requires
            self.wf(),
        ensures
            match r {
                Some(v) => self@.dom().contains(key@) && self@[key@] == v@,
                None => !self@.dom().contains(key@),
            },
    {
        match self.find(key) {
            Some(j) => {
                proof {
                    lemma_table_at(self.entries@, j as int);
                }
                Some(&self.entries[j].1)
            },
            None => {
                proof {
                    lemma_table_dom(self.entries@, key@);
                }
                None
            },
        }
    }

    /// The key at position `i` of [`Table::keys`].
    pub fn key_at(&self, i: usize) -> (r: &String)
        requires
            i < self.keys().len(),
        ensures
            r@ == self.keys()[i as int],
    {
        &self.entries[i].0
    }

    /// Sets the value of `key`, as a hash map's `insert` does: a key already
    /// present keeps its place, a new key goes last.
    pub fn insert(&mut self, key: String, value: V)
        requires
            old(self).wf(),
        ensures
            final(self).wf(),
            final(self)@ == old(self)@.insert(key@, value@),
            old(self)@.dom().contains(key@) ==> final(self).keys() == old(self).keys(),
            !old(self)@.dom().contains(key@) ==> final(self).keys() == old(self).keys().push(key@),
    {
        proof {
            lemma_table_dom(self.entries@, key@);
        }
        match self.find(&key) {
            Some(j) => {
                let ghost p = (key, value);
                proof {
                    lemma_table_update(self.entries@, j as int, p);
                }
                self.entries.set(j, (key, value));
            },
            None => {
                let ghost p = (key, value);
                let ghost e = self.entries@;
                self.entries.push((key, value));
                assert(self.entries@.drop_last() =~= e);
                assert(table_keys(self.entries@) =~= table_keys(e).push(key@));
                assert forall|a: int, b: int| 0 <= a < b < self.entries@.len() implies #[trigger] self.entries@[a].0@ != #[trigger] self.entries@[b].0@ by {
                    if b == self.entries@.len() - 1 {
                        assert(e[a].0@ != key@);
                    } else {
                        assert(e[a].0@ != e[b].0@);
                    }
                }
            },
        }
    }
}

impl Table<Vec<u64>> {
    /// Appends `id` to the list of `key`, which starts empty, as
    /// `entry(key).or_default().push(id)` does on a hash map.
    pub fn push_to(&mut self, key: String, id: u64)
        requires
            old(self).wf(),
        ensures
            final(self).wf(),
            final(self)@ == old(self)@.insert(
                key@,
                (if old(self)@.dom().contains(key@) {
                    old(self)@[key@]
                } else {
                    Seq::empty()
                }).push(id),
            ),
            old(self)@.dom().contains(key@) ==> final(self).keys() == old(self).keys(),
            !old(self)@.dom().contains(key@) ==> final(self).keys() == old(self).keys().push(key@),
    {
        let mut ids: Vec<u64> = match self.get(&key) {
            Some(existing) => existing.clone(),
            None => Vec::new(),
        };
        ids.push(id);
        self.insert(key, ids);
    }
}

} // verus!
