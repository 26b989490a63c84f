//! The data a template is rendered against: a format-independent value tree
//! and an insertion-ordered string-keyed map.

use vstd::prelude::*;

use crate::text::{str_eq, string_of};

verus! {

/// A context value for rendering, independent of the input data format.
///
/// A floating-point number is held as its decimal rendering (for example
/// `"2.0"` or `"1.5"`): the engine never computes with it, it only treats it
/// as truthy and prints that text.
#[derive(Debug, PartialEq)]
pub enum Value {
    /// The absence of a value.
    Null,
    /// A boolean.
    Bool(bool),
    /// An integer.
    Integer(i64),
    /// A floating-point number, held as its decimal rendering.
    Float(String),
    /// A string.
    String(String),
    /// An array.
    Array(Vec<Value>),
    /// A map that keeps its keys in insertion order.
    Object(ValueMap),
}

/// A map from string keys to values that keeps its keys in insertion order.
#[derive(Debug, PartialEq)]
pub struct ValueMap {
    entries: Vec<(String, Value)>,
}

/// The index of the first entry whose key is `key`, if any.
pub open spec fn first_key_index(entries: Seq<(String, Value)>, key: Seq<char>) -> Option<int>
    decreases entries.len(),
{
    if entries.len() == 0 {
        None
    } else if entries[0].0@ == key {
        Some(0)
    } else {
        match first_key_index(entries.drop_first(), key) {
            Some(i) => Some(i + 1),
            None => None,
        }
    }
}

/// No two entries share a key.
pub open spec fn keys_unique(entries: Seq<(String, Value)>) -> bool {
    forall|i: int, j: int|
        0 <= i < entries.len() && 0 <= j < entries.len() && i != j ==> #[trigger] entries[i].0@
            != #[trigger] entries[j].0@
}

/// `first_key_index` finds exactly the first entry with the key.
pub proof fn lemma_first_key_index(entries: Seq<(String, Value)>, key: Seq<char>)
    ensures
        match first_key_index(entries, key) {
            Some(i) => 0 <= i < entries.len() && entries[i].0@ == key && forall|j: int|
                0 <= j < i ==> #[trigger] entries[j].0@ != key,
            None => forall|j: int| 0 <= j < entries.len() ==> #[trigger] entries[j].0@ != key,
        },
    decreases entries.len(),
{
    if entries.len() > 0 && entries[0].0@ != key {
        lemma_first_key_index(entries.drop_first(), key);
        match first_key_index(entries.drop_first(), key) {
            Some(i) => {
                assert forall|j: int| 0 <= j < i + 1 implies #[trigger] entries[j].0@ != key by {
                    if j > 0 {
                        assert(entries[j] == entries.drop_first()[j - 1]);
                    }
                }
            },
            None => {
                assert forall|j: int| 0 <= j < entries.len() implies #[trigger] entries[j].0@
                    != key by {
                    if j > 0 {
                        assert(entries[j] == entries.drop_first()[j - 1]);
                    }
                }
            },
        }
    }
}

/// The index characterised by "first entry with the key" is `first_key_index`.
pub proof fn lemma_first_key_index_unique(
    entries: Seq<(String, Value)>,
    key: Seq<char>,
    i: int,
)
    requires
        0 <= i <= entries.len(),
        forall|j: int| 0 <= j < i ==> #[trigger] entries[j].0@ != key,
    ensures
        i < entries.len() && entries[i].0@ == key ==> first_key_index(entries, key) == Some(i),
        i == entries.len() ==> first_key_index(entries, key) is None,
{
    lemma_first_key_index(entries, key);
}

/// Entries with the same keys, position by position, find every key at the
/// same index.
proof fn lemma_same_keys(e: Seq<(String, Value)>, e2: Seq<(String, Value)>, k: Seq<char>)
    requires
        e2.len() == e.len(),
        forall|j: int| 0 <= j < e.len() ==> #[trigger] e2[j].0@ == e[j].0@,
    ensures
        first_key_index(e2, k) == first_key_index(e, k),
{
    lemma_first_key_index(e, k);
    match first_key_index(e, k) {
        Some(i) => {
            assert forall|j: int| 0 <= j < i implies #[trigger] e2[j].0@ != k by {
                assert(e2[j].0@ == e[j].0@);
            }
            lemma_first_key_index_unique(e2, k, i);
        },
        None => {
            assert forall|j: int| 0 <= j < e2.len() implies #[trigger] e2[j].0@ != k by {
                assert(e2[j].0@ == e[j].0@);
            }
            lemma_first_key_index_unique(e2, k, e2.len() as int);
        },
    }
}

/// Appending an entry whose key is new finds it at the end and every other
/// key where it was.
proof fn lemma_push_new_key(e: Seq<(String, Value)>, entry: (String, Value), k: Seq<char>)
    requires
        first_key_index(e, entry.0@) is None,
    ensures
        first_key_index(e.push(entry), k) == (if k == entry.0@ {
            Some(e.len() as int)
        } else {
            first_key_index(e, k)
        }),
{
    let e2 = e.push(entry);
    lemma_first_key_index(e, entry.0@);
    lemma_first_key_index(e, k);
    if k == entry.0@ {
        assert forall|j: int| 0 <= j < e.len() implies #[trigger] e2[j].0@ != k by {
            assert(e2[j] == e[j]);
        }
        lemma_first_key_index_unique(e2, k, e.len() as int);
    } else {
        match first_key_index(e, k) {
            Some(i) => {
                assert forall|j: int| 0 <= j < i implies #[trigger] e2[j].0@ != k by {
                    assert(e2[j] == e[j]);
                }
                assert(e2[i] == e[i]);
                lemma_first_key_index_unique(e2, k, i);
            },
            None => {
                assert forall|j: int| 0 <= j < e2.len() implies #[trigger] e2[j].0@ != k by {
                    if j < e.len() {
                        assert(e2[j] == e[j]);
                    }
                }
                lemma_first_key_index_unique(e2, k, e2.len() as int);
            },
        }
    }
}

/// What an insertion does to lookups, to key uniqueness and to key order.
proof fn lemma_insert_effect(
    e: Seq<(String, Value)>,
    e2: Seq<(String, Value)>,
    key: Seq<char>,
    value: Value,
)
    requires
        match first_key_index(e, key) {
            Some(i) => e2 == e.update(i, (e[i].0, value)),
            None => e2.len() == e.len() + 1 && e2.drop_last() == e && e2.last().0@ == key
                && e2.last().1 == value,
        },
    ensures
        first_key_index(e2, key) matches Some(i) && e2[i].1 == value,
        forall|k: Seq<char>|
            k != key ==> #[trigger] first_key_index(e2, k) == first_key_index(e, k) && (
            first_key_index(e, k) matches Some(j) ==> e2[j] == e[j]),
        keys_unique(e) ==> keys_unique(e2),
        e2.map_values(|x: (String, Value)| x.0@) == if first_key_index(e, key) is Some {
            e.map_values(|x: (String, Value)| x.0@)
        } else {
            e.map_values(|x: (String, Value)| x.0@).push(key)
        },
{
    lemma_first_key_index(e, key);
    match first_key_index(e, key) {
        Some(i) => {
            assert forall|j: int| 0 <= j < e.len() implies #[trigger] e2[j].0@ == e[j].0@ by {}
            lemma_same_keys(e, e2, key);
            assert forall|k: Seq<char>| k != key implies #[trigger] first_key_index(e2, k)
                == first_key_index(e, k) && (first_key_index(e, k) matches Some(j) ==> e2[j]
                == e[j]) by {
                lemma_same_keys(e, e2, k);
                lemma_first_key_index(e, k);
            }
            if keys_unique(e) {
                assert forall|a: int, b: int|
                    0 <= a < e2.len() && 0 <= b < e2.len() && a != b implies #[trigger] e2[a].0@
                    != #[trigger] e2[b].0@ by {
                    assert(e2[a].0@ == e[a].0@);
                    assert(e2[b].0@ == e[b].0@);
                }
            }
            assert(e2.map_values(|x: (String, Value)| x.0@) =~= e.map_values(
                |x: (String, Value)| x.0@,
            ));
        },
        None => {
            assert(e2 =~= e.push(e2.last()));
            lemma_push_new_key(e, e2.last(), key);
            assert forall|k: Seq<char>| k != key implies #[trigger] first_key_index(e2, k)
                == first_key_index(e, k) && (first_key_index(e, k) matches Some(j) ==> e2[j]
                == e[j]) by {
                lemma_push_new_key(e, e2.last(), k);
                lemma_first_key_index(e, k);
                if first_key_index(e, k) is Some {
                    let j = first_key_index(e, k)->0;
                    assert(e2[j] == e2.drop_last()[j]);
                }
            }
            if keys_unique(e) {
                assert forall|a: int, b: int|
                    0 <= a < e2.len() && 0 <= b < e2.len() && a != b implies #[trigger] e2[a].0@
                    != #[trigger] e2[b].0@ by {
                    if a < e.len() {
                        assert(e2[a] == e[a]);
                    }
                    if b < e.len() {
                        assert(e2[b] == e[b]);
                    }
                }
            }
            assert(e2.map_values(|x: (String, Value)| x.0@) =~= e.map_values(
                |x: (String, Value)| x.0@,
            ).push(key));
        },
    }
}

impl ValueMap {
    /// The entries in insertion order.
    pub closed spec fn entry_seq(&self) -> Seq<(String, Value)> {
        self.entries@
    }

    /// The value stored under `key`, if any.
    pub open spec fn spec_get(&self, key: Seq<char>) -> Option<Value> {
        match first_key_index(self.entry_seq(), key) {
            Some(i) => Some(self.entry_seq()[i].1),
            None => None,
        }
    }

    /// No two entries share a key.
    pub open spec fn wf(&self) -> bool {
        keys_unique(self.entry_seq())
    }

    /// The keys in insertion order.
    pub open spec fn key_seq(&self) -> Seq<Seq<char>> {
        self.entry_seq().map_values(|e: (String, Value)| e.0@)
    }

    /// Creates an empty map.
    pub fn new() -> (m: Self)
        ensures
            m.entry_seq() == Seq::<(String, Value)>::empty(),
            m.wf(),
    {
        ValueMap { entries: Vec::new() }
    }

    /// Associates `value` with `key`. An existing key keeps its place and
    /// gets the new value, and its former value is returned; a new key is
    /// appended at the end.
    pub fn insert(&mut self, key: &str, value: Value) -> (old_value: Option<Value>)
        ensures
            match first_key_index(old(self).entry_seq(), key@) {
                Some(i) => {
                    &&& final(self).entry_seq() == old(self).entry_seq().update(
                        i,
                        (old(self).entry_seq()[i].0, value),
                    )
                    &&& old_value == Some(old(self).entry_seq()[i].1)
                },
                None => {
                    &&& final(self).entry_seq().len() == old(self).entry_seq().len() + 1
                    &&& final(self).entry_seq().drop_last() == old(self).entry_seq()
                    &&& final(self).entry_seq().last().0@ == key@
                    &&& final(self).entry_seq().last().1 == value
                    &&& old_value is None
                },
            },
            final(self).spec_get(key@) == Some(value),
            forall|k: Seq<char>| k != key@ ==> #[trigger] final(self).spec_get(k) == old(self).spec_get(k),
            old(self).wf() ==> final(self).wf(),
            final(self).key_seq() == if old(self).spec_get(key@) is Some {
                old(self).key_seq()
            } else {
                old(self).key_seq().push(key@)
            },
    {
        let mut i: usize = 0;
        while i < self.entries.len()
            invariant
                i <= self.entries.len(),
                self.entries@ == old(self).entries@,
                forall|j: int| 0 <= j < i ==> #[trigger] self.entries@[j].0@ != key@,
            decreases self.entries.len() - i,
        {
            if str_eq(self.entries[i].0.as_str(), key) {
                proof {
                    lemma_first_key_index_unique(self.entries@, key@, i as int);
                }
                let (k, old_v) = self.entries.remove(i);
                self.entries.insert(i, (k, value));
                assert(self.entries@ =~= old(self).entries@.update(
                    i as int,
                    (old(self).entries@[i as int].0, value),
                ));
                proof {
                    lemma_insert_effect(old(self).entries@, self.entries@, key@, value);
                }
                return Some(old_v);
            }
            i = i + 1;
        }
        proof {
            lemma_first_key_index_unique(self.entries@, key@, i as int);
        }
        self.entries.push((string_of(key), value));
        assert(self.entries@.drop_last() =~= old(self).entries@);
        proof {
            lemma_insert_effect(old(self).entries@, self.entries@, key@, value);
        }
        None
    }

    /// The value stored under `key`, if any.
    pub fn get(&self, key: &str) -> (r: Option<&Value>)
        ensures
            match self.spec_get(key@) {
                Some(v) => r is Some && *r->0 == v,
                None => r is None,
            },
    {
        let mut i: usize = 0;
        while i < self.entries.len()
            invariant
                i <= self.entries.len(),
                forall|j: int| 0 <= j < i ==> #[trigger] self.entries@[j].0@ != key@,
            decreases self.entries.len() - i,
        {
            if str_eq(self.entries[i].0.as_str(), key) {
                proof {
                    lemma_first_key_index_unique(self.entries@, key@, i as int);
                }
                return Some(&self.entries[i].1);
            }
            i = i + 1;
        }
        proof {
            lemma_first_key_index_unique(self.entries@, key@, i as int);
        }
        None
    }

    /// The entries in insertion order.
    pub fn iter(&self) -> (r: &[(String, Value)])
        ensures
            r@ == self.entry_seq(),
    {
        self.entries.as_slice()
    }

    /// The number of entries.
    pub fn len(&self) -> (n: usize)
        ensures
            n == self.entry_seq().len(),
    {
        self.entries.len()
    }

    /// Whether the map has no entries.
    pub fn is_empty(&self) -> (b: bool)
        ensures
            b == (self.entry_seq().len() == 0),
    {
        self.entries.len() == 0
    }
}

impl Default for ValueMap {
    fn default() -> (m: Self)
        ensures
            m.entry_seq() == Seq::<(String, Value)>::empty(),
    {
        ValueMap::new()
    }
}

/// Mustache truthiness: only `null`, `false` and the empty array are falsy;
/// the empty string, the empty map and zero are truthy.
pub open spec fn spec_is_truthy(v: Value) -> bool {
    match v {
        Value::Null => false,
        Value::Bool(b) => b,
        Value::Array(items) => items@.len() != 0,
        _ => true,
    }
}

/// Key lookup on a value: a map's entry, nothing for any other value.
pub open spec fn spec_value_get(v: Value, key: Seq<char>) -> Option<Value> {
    match v {
        Value::Object(m) => m.spec_get(key),
        _ => None,
    }
}

impl Value {
    /// Whether the value counts as true for a section.
    pub fn is_truthy(&self) -> (b: bool)
        ensures
            b == spec_is_truthy(*self),
    {
        match self {
            Value::Null => false,
            Value::Bool(b) => *b,
            Value::Array(items) => items.len() != 0,
            Value::Object(_) => true,
            Value::Integer(_) | Value::Float(_) | Value::String(_) => true,
        }
    }

    /// Looks a key up in a map value; any other value has no keys.
    pub fn get(&self, key: &str) -> (r: Option<&Value>)
        ensures
            match spec_value_get(*self, key@) {
                Some(v) => r is Some && *r->0 == v,
                None => r is None,
            },
    {
        match self {
            Value::Object(map) => map.get(key),
            _ => None,
        }
    }

    /// The items of an array value; `None` for any other value.
    pub fn iter(&self) -> (r: Option<&Vec<Value>>)
        ensures
            match *self {
                Value::Array(items) => r is Some && *r->0 == items,
                _ => r is None,
            },
    {
        match self {
            Value::Array(items) => Some(items),
            _ => None,
        }
    }
}

/// A value as plain data: what a `Value` holds, arrays and maps as
/// sequences.
pub enum ValueModel {
    Null,
    Bool(bool),
    Integer(i64),
    Float(Seq<char>),
    String(Seq<char>),
    Array(Seq<ValueModel>),
    Object(Seq<(Seq<char>, ValueModel)>),
}

/// What a value holds.
pub open spec fn value_model(v: Value) -> ValueModel
    decreases v,
{
    match v {
        Value::Null => ValueModel::Null,
        Value::Bool(b) => ValueModel::Bool(b),
        Value::Integer(i) => ValueModel::Integer(i),
        Value::Float(t) => ValueModel::Float(t@),
        Value::String(s) => ValueModel::String(s@),
        Value::Array(items) => ValueModel::Array(
            Seq::new(
                items@.len(),
                |i: int|
                    if 0 <= i < items@.len() {
                        value_model(items@[i])
                    } else {
                        ValueModel::Null
                    },
            ),
        ),
        Value::Object(m) => ValueModel::Object(map_model(m)),
    }
}

/// What a map holds: its keys and values in order.
pub closed spec fn map_model(m: ValueMap) -> Seq<(Seq<char>, ValueModel)>
    decreases m,
{
    Seq::new(
        m.entries@.len(),
        |i: int|
            if 0 <= i < m.entries@.len() {
                (m.entries@[i].0@, value_model(m.entries@[i].1))
            } else {
                (Seq::empty(), ValueModel::Null)
            },
    )
}

/// A copy of a value, holding the same.
fn clone_value(v: &Value) -> (r: Value)
    ensures
        value_model(r) == value_model(*v),
    decreases v,
{
    match v {
        Value::Null => Value::Null,
        Value::Bool(b) => Value::Bool(*b),
        Value::Integer(i) => Value::Integer(*i),
        Value::Float(t) => Value::Float(t.clone()),
        Value::String(s) => Value::String(s.clone()),
        Value::Array(items) => {
            let mut out: Vec<Value> = Vec::new();
            let mut i: usize = 0;
            while i < items.len()
                invariant
                    *v == Value::Array(*items),
                    i <= items.len(),
                    out@.len() == i,
                    forall|k: int| 0 <= k < i ==> #[trigger] value_model(out@[k]) == value_model(items@[k]),
                decreases items.len() - i,
            {
                proof {
                    assert(v->Array_0 == *items);
                    assert(decreases_to!(*v => v->Array_0));
                    assert(decreases_to!(*items => items[i as int]));
                }
                let c = clone_value(&items[i]);
                out.push(c);
                i = i + 1;
            }
            let ghost ov = out@;
            let r = Value::Array(out);
            proof {
                let ar = value_model(r)->Array_0;
                let bv = value_model(*v)->Array_0;
                assert(ar.len() == bv.len());
                assert forall|k: int| 0 <= k < ar.len() implies ar[k] == bv[k] by {
                    assert(ar[k] == value_model(ov[k]));
                    assert(bv[k] == value_model(items@[k]));
                }
                assert(ar =~= bv);
            }
            r
        },
        Value::Object(m) => Value::Object(clone_map(m)),
    }
}

/// A copy of a map, holding the same.
fn clone_map(m: &ValueMap) -> (r: ValueMap)
    ensures
        map_model(r) == map_model(*m),
        r.entry_seq().len() == m.entry_seq().len(),
        forall|i: int| 0 <= i < m.entry_seq().len() ==> #[trigger] r.entry_seq()[i].0@ == m.entry_seq()[i].0@,
    decreases m,
{
    let mut out: Vec<(String, Value)> = Vec::new();
    let mut i: usize = 0;
    while i < m.entries.len()
        invariant
            i <= m.entries.len(),
            out@.len() == i,
            forall|k: int| 0 <= k < i ==> #[trigger] out@[k].0@ == m.entries@[k].0@,
            forall|k: int| 0 <= k < i ==> value_model(#[trigger] out@[k].1) == value_model(m.entries@[k].1),
        decreases m.entries.len() - i,
    {
        proof {
            assert(decreases_to!(*m => m.entries));
            assert(decreases_to!(m.entries => m.entries[i as int]));
            assert(decreases_to!(m.entries[i as int] => m.entries[i as int].1));
        }
        let key = m.entries[i].0.clone();
        let val = clone_value(&m.entries[i].1);
        out.push((key, val));
        i = i + 1;
    }
    let ghost ov = out@;
    let r = ValueMap { entries: out };
    assert forall|k: int| 0 <= k < map_model(r).len() implies map_model(r)[k] == map_model(*m)[k] by {
        assert(ov[k].0@ == m.entries@[k].0@);
        assert(value_model(ov[k].1) == value_model(m.entries@[k].1));
    }
    assert(map_model(r) =~= map_model(*m));
    r
}

impl Clone for Value {
    fn clone(&self) -> (r: Self)
        ensures
            value_model(r) == value_model(*self),
    {
        clone_value(self)
    }
}

impl Clone for ValueMap {
    fn clone(&self) -> (r: Self)
        ensures
            map_model(r) == map_model(*self),
            r.entry_seq().len() == self.entry_seq().len(),
            forall|i: int| 0 <= i < self.entry_seq().len() ==> #[trigger] r.entry_seq()[i].0@
                == self.entry_seq()[i].0@,
    {
        clone_map(self)
    }
}

/// Wraps a serialized sequence: a plain array, or, for an enum variant, a
/// map with the variant name as its single key.
pub fn finish_seq(items: Vec<Value>, variant: Option<&str>) -> (v: Value)
    ensures
        match variant {
            None => v == Value::Array(items),
            Some(name) => v matches Value::Object(m) && m.entry_seq().len() == 1
                && m.entry_seq()[0].0@ == name@ && m.entry_seq()[0].1 == Value::Array(items),
        },
{
    let array = Value::Array(items);
    match variant {
        Some(name) => {
            let mut outer = ValueMap::new();
            outer.insert(name, array);
            Value::Object(outer)
        },
        None => array,
    }
}

/// Wraps a serialized map: the map itself, or, for an enum variant, a map
/// with the variant name as its single key.
pub fn finish_map(map: ValueMap, variant: Option<&str>) -> (v: Value)
    ensures
        match variant {
            None => v == Value::Object(map),
            Some(name) => v matches Value::Object(m) && m.entry_seq().len() == 1
                && m.entry_seq()[0].0@ == name@ && m.entry_seq()[0].1 == Value::Object(map),
        },
{
    match variant {
        Some(name) => {
            let mut outer = ValueMap::new();
            outer.insert(name, Value::Object(map));
            Value::Object(outer)
        },
        None => Value::Object(map),
    }
}

/// The error `Value::from_serialize` reports.
#[derive(Debug, Clone, PartialEq)]
pub struct ValueError {
    message: String,
}

impl ValueError {
    /// An error with the given message.
    pub fn new(message: String) -> (e: Self)
        ensures
            e.spec_message() == message@,
    {
        ValueError { message }
    }

    /// The message.
    pub closed spec fn spec_message(&self) -> Seq<char> {
        self.message@
    }

    /// The message, as the error's text.
    pub fn to_string(&self) -> (s: String)
        ensures
            s@ == self.spec_message(),
    {
        self.message.clone()
    }
}

} // verus!
