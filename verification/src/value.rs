//! Values of the protocol, their mathematical model, and the map entries that
//! a decoded aggregate of key/value pairs keeps.

use vstd::prelude::*;

verus! {

/// The model of a protocol value.
pub enum Value {
    Null,
    Integer(int),
    Str(Seq<char>),
    Array(Seq<Value>),
    Mapping(Map<Seq<char>, Value>),
}

/// A value received from a peer. A `Mapping` holds its pairs in the order in
/// which their keys first arrived; its keys are distinct (see
/// [`entries_distinct`]), as those of a hash map are.
#[derive(Debug)]
pub enum RedisValue {
    Null,
    Integer(i64),
    Str(String),
    Array(Vec<RedisValue>),
    Mapping(Vec<(String, RedisValue)>),
}

/// The model of a value.
pub open spec fn value_of(v: RedisValue) -> Value
    decreases v,
{
    match v {
        RedisValue::Null => Value::Null,
        RedisValue::Integer(i) => Value::Integer(i as int),
        RedisValue::Str(s) => Value::Str(s@),
        RedisValue::Array(items) => Value::Array(values_of(items@)),
        RedisValue::Mapping(entries) => Value::Mapping(entries_view(entries@)),
    }
}

/// The models of a sequence of values.
pub open spec fn values_of(s: Seq<RedisValue>) -> Seq<Value>
    decreases s,
{
    if s.len() == 0 {
        Seq::empty()
    } else {
        values_of(s.drop_last()).push(value_of(s.last()))
    }
}

/// The map that a sequence of pairs stands for: each pair is inserted in
/// turn, so that a later pair wins over an earlier one with the same key.
pub open spec fn entries_view(e: Seq<(String, RedisValue)>) -> Map<Seq<char>, Value>
    decreases e,
{
    if e.len() == 0 {
        Map::empty()
    } else {
        entries_view(e.drop_last()).insert(e.last().0@, value_of(e.last().1))
    }
}

/// No key occurs twice among the pairs.
pub open spec fn entries_distinct(e: Seq<(String, RedisValue)>) -> bool {
    forall|i: int, j: int| 0 <= i < j < e.len() ==> #[trigger] e[i].0@ != #[trigger] e[j].0@
}

/// The well-formedness of a value: every mapping in it has distinct keys.
pub open spec fn well_formed(v: RedisValue) -> bool
    decreases v,
{
    match v {
        RedisValue::Array(items) => all_well_formed(items@),
        RedisValue::Mapping(entries) => entries_distinct(entries@) && entries_well_formed(entries@),
        _ => true,
    }
}

/// Every value of the sequence is well formed.
pub open spec fn all_well_formed(s: Seq<RedisValue>) -> bool
    decreases s,
{
    s.len() != 0 ==> all_well_formed(s.drop_last()) && well_formed(s.last())
}

/// Every value among the pairs is well formed.
pub open spec fn entries_well_formed(e: Seq<(String, RedisValue)>) -> bool
    decreases e,
{
    e.len() != 0 ==> entries_well_formed(e.drop_last()) && well_formed(e.last().1)
}

pub proof fn lemma_values_of_push(s: Seq<RedisValue>, v: RedisValue)
    ensures
        values_of(s.push(v)) == values_of(s).push(value_of(v)),
        all_well_formed(s.push(v)) == (all_well_formed(s) && well_formed(v)),
{
    assert(s.push(v).drop_last() =~= s);
}

/// The models of a sequence of values, one by one.
pub proof fn lemma_values_of_index(s: Seq<RedisValue>)
    ensures
        values_of(s).len() == s.len(),
        forall|i: int| 0 <= i < s.len() ==> #[trigger] values_of(s)[i] == value_of(s[i]),
    decreases s.len(),
{
    if s.len() != 0 {
        lemma_values_of_index(s.drop_last());
        assert forall|i: int| 0 <= i < s.len() implies #[trigger] values_of(s)[i] == value_of(s[i]) by {
            if i < s.len() - 1 {
                assert(s.drop_last()[i] == s[i]);
            }
        }
    }
}

pub proof fn lemma_entries_push(e: Seq<(String, RedisValue)>, p: (String, RedisValue))
    ensures
        entries_view(e.push(p)) == entries_view(e).insert(p.0@, value_of(p.1)),
        entries_well_formed(e.push(p)) == (entries_well_formed(e) && well_formed(p.1)),
{
    assert(e.push(p).drop_last() =~= e);
}

/// The keys of the map that pairs stand for are exactly the keys among them.
pub proof fn lemma_entries_dom(e: Seq<(String, RedisValue)>, k: Seq<char>)
    ensures
        entries_view(e).dom().contains(k) <==> exists|i: int| 0 <= i < e.len() && #[trigger] e[i].0@ == k,
    decreases e.len(),
{
    if e.len() != 0 {
        lemma_entries_dom(e.drop_last(), k);
        if entries_view(e.drop_last()).dom().contains(k) {
            let i = choose|i: int| 0 <= i < e.drop_last().len() && #[trigger] e.drop_last()[i].0@ == k;
            assert(e[i].0@ == k);
        }
        if exists|i: int| 0 <= i < e.len() && #[trigger] e[i].0@ == k {
            let i = choose|i: int| 0 <= i < e.len() && #[trigger] e[i].0@ == k;
            if i < e.len() - 1 {
                assert(e.drop_last()[i].0@ == k);
            }
        }
    }
}

/// Replacing the pair of a key that occurs once replaces its value in the map.
pub proof fn lemma_entries_update(e: Seq<(String, RedisValue)>, j: int, p: (String, RedisValue))
    requires
        entries_distinct(e),
        0 <= j < e.len(),
        e[j].0@ == p.0@,
    ensures
        entries_view(e.update(j, p)) == entries_view(e).insert(p.0@, value_of(p.1)),
        entries_distinct(e.update(j, p)),
    decreases e.len(),
{
    let u = e.update(j, p);
    assert forall|a: int, b: int| 0 <= a < b < u.len() implies #[trigger] u[a].0@ != #[trigger] u[b].0@ by {
        assert(e[a].0@ != e[b].0@);
    }
    if j == e.len() - 1 {
        assert(u.drop_last() =~= e.drop_last());
        assert(entries_view(u) =~= entries_view(e).insert(p.0@, value_of(p.1)));
    } else {
        let d = e.drop_last();
        assert(entries_distinct(d)) by {
            assert forall|a: int, b: int| 0 <= a < b < d.len() implies #[trigger] d[a].0@ != #[trigger] d[b].0@ by {
                assert(d[a] == e[a] && d[b] == e[b]);
            }
        }
        assert(u.drop_last() =~= d.update(j, p));
        lemma_entries_update(d, j, p);
        assert(e.last().0@ != p.0@) by {
            assert(e[j].0@ != e[e.len() - 1].0@);
        }
        assert(u.last() == e.last());
        assert(entries_view(u) =~= entries_view(e).insert(p.0@, value_of(p.1)));
    }
}

/// Index of the pair whose key is `key`, if any.
fn find_entry(entries: &Vec<(String, RedisValue)>, key: &String) -> (r: Option<usize>)
    ensures
        match r {
            Some(j) => j < entries@.len() && entries@[j as int].0@ == key@,
            None => forall|i: int| 0 <= i < entries@.len() ==> #[trigger] entries@[i].0@ != key@,
        },
{
    let mut i: usize = 0;
    while i < entries.len()
        invariant
            i <= entries@.len(),
            forall|k: int| 0 <= k < i ==> #[trigger] entries@[k].0@ != key@,
        decreases entries@.len() - i,
    {
        if entries[i].0 == *key {
            return Some(i);
        }
        i += 1;
    }
    None
}

/// Inserts a pair as a hash map does: the value of a key already present is
/// replaced, a new key is added.
pub fn insert_entry(entries: &mut Vec<(String, RedisValue)>, key: String, value: RedisValue)
    requires
        entries_distinct(old(entries)@),
    ensures
        entries_distinct(final(entries)@),
        entries_view(final(entries)@) == entries_view(old(entries)@).insert(key@, value_of(value)),
        entries_well_formed(old(entries)@) && well_formed(value) ==> entries_well_formed(final(entries)@),
{
    match find_entry(entries, &key) {
        Some(j) => {
            let ghost p = (key, value);
            proof {
                lemma_entries_update(entries@, j as int, p);
                lemma_entries_wf_update(entries@, j as int, p);
            }
            entries.set(j, (key, value));
        },
        None => {
            let ghost p = (key, value);
            proof {
                lemma_entries_push(entries@, p);
            }
            entries.push((key, value));
            assert forall|a: int, b: int| 0 <= a < b < entries@.len() implies #[trigger] entries@[a].0@ != #[trigger] entries@[b].0@ by {
                if b == entries@.len() - 1 {
                    assert(old(entries)@[a].0@ != key@);
                } else {
                    assert(old(entries)@[a].0@ != old(entries)@[b].0@);
                }
            }
        },
    }
}

proof fn lemma_entries_wf_update(e: Seq<(String, RedisValue)>, j: int, p: (String, RedisValue))
    requires
        0 <= j < e.len(),
    ensures
        entries_well_formed(e) && well_formed(p.1) ==> entries_well_formed(e.update(j, p)),
    decreases e.len(),
{
    let u = e.update(j, p);
    if j == e.len() - 1 {
        assert(u.drop_last() =~= e.drop_last());
    } else {
        assert(u.drop_last() =~= e.drop_last().update(j, p));
        lemma_entries_wf_update(e.drop_last(), j, p);
    }
}

impl RedisValue {
    /// The text of a string value; `None` for every other kind of value.
    pub fn as_str(&self) -> (r: Option<&str>)
        ensures
            match self {
                RedisValue::Str(s) => r matches Some(t) && t@ == s@,
                _ => r is None,
            },
    {
        match self {
            RedisValue::Str(s) => Some(s.as_str()),
            _ => None,
        }
    }

    /// The string value of `self` when it is a string; `None` otherwise.
    pub fn as_string(&self) -> (r: Option<&String>)
        ensures
            match self {
                RedisValue::Str(s) => r == Some(s),
                _ => r is None,
            },
    {
        match self {
            RedisValue::Str(s) => Some(s),
            _ => None,
        }
    }

    /// The value that a mapping pairs with `key`, as a hash map holding its
    /// pairs would give it; `None` when `self` is not a mapping or has no
    /// such key.
    pub fn get(&self, key: &String) -> (r: Option<&RedisValue>)
        ensures
            match value_of(*self) {
                Value::Mapping(m) => match r {
                    Some(v) => m.dom().contains(key@) && m[key@] == value_of(*v),
                    None => !m.dom().contains(key@),
                },
                _ => r is None,
            },
    {
        match self {
            RedisValue::Mapping(entries) => {
                let mut i: usize = entries.len();
                while i > 0
                    invariant
                        *self == RedisValue::Mapping(*entries),
                        i <= entries@.len(),
                        forall|k: int| i <= k < entries@.len() ==> #[trigger] entries@[k].0@ != key@,
                    decreases i,
                {
                    if entries[i - 1].0 == *key {
                        let found = &entries[i - 1].1;
                        proof {
                            lemma_entries_last(entries@, (i - 1) as int);
                        }
                        return Some(found);
                    }
                    i -= 1;
                }
                proof {
                    lemma_entries_dom(entries@, key@);
                }
                None
            },
            _ => None,
        }
    }
}

/// The map gives a key the value of the last pair with that key.
pub proof fn lemma_entries_last(e: Seq<(String, RedisValue)>, j: int)
    requires
        0 <= j < e.len(),
        forall|k: int| j < k < e.len() ==> #[trigger] e[k].0@ != e[j].0@,
    ensures
        entries_view(e).dom().contains(e[j].0@),
        entries_view(e)[e[j].0@] == value_of(e[j].1),
    decreases e.len(),
{
    if j < e.len() - 1 {
        let d = e.drop_last();
        assert(d[j] == e[j]);
        assert forall|k: int| j < k < d.len() implies #[trigger] d[k].0@ != d[j].0@ by {
            assert(d[k] == e[k]);
        }
        lemma_entries_last(d, j);
        assert(e[e.len() - 1].0@ != e[j].0@);
    }
}

} // verus!
