//! A generic semi-structured document value (null, bool, number,
//! string, sequence, mapping) with safe typed accessors that return
//! optional results on shape mismatch, never failing.
//!
//! Entities carry their free-form `spec` document as such a value; the
//! graph and tree builders read it through the accessors here.

use vstd::prelude::*;

use crate::text::str_eq_str;

verus! {

broadcast use vstd::std_specs::vec::axiom_vec_index_decreases;

/// A semi-structured document value.
#[derive(Debug)]
pub enum Value {
    Null,
    Bool(bool),
    Number(i64),
    Str(String),
    Sequence(Vec<Value>),
    Mapping(Vec<(String, Value)>),
}

/// Structural equality of two values, comparing strings by their
/// character sequences.
pub open spec fn value_eq(a: Value, b: Value) -> bool
    decreases a,
{
    match (a, b) {
        (Value::Null, Value::Null) => true,
        (Value::Bool(x), Value::Bool(y)) => x == y,
        (Value::Number(x), Value::Number(y)) => x == y,
        (Value::Str(x), Value::Str(y)) => x@ == y@,
        (Value::Sequence(x), Value::Sequence(y)) => {
            &&& x@.len() == y@.len()
            &&& forall|i: int|
                0 <= i < x@.len() ==> value_eq(#[trigger] x@[i], y@[i])
        },
        (Value::Mapping(x), Value::Mapping(y)) => {
            &&& x@.len() == y@.len()
            &&& forall|i: int|
                0 <= i < x@.len() ==> (#[trigger] x@[i]).0@ == y@[i].0@ && value_eq(
                    x@[i].1,
                    y@[i].1,
                )
        },
        _ => false,
    }
}

/// The first value bound to `key` in a mapping's first `n` entries.
pub open spec fn entries_lookup(entries: Seq<(String, Value)>, key: Seq<char>, n: int) -> Option<
    Value,
>
    decreases n,
{
    if n <= 0 {
        None
    } else if entries[0].0@ == key {
        Some(entries[0].1)
    } else {
        entries_lookup(entries.drop_first(), key, n - 1)
    }
}

/// The value bound to `key` when the document is a mapping holding it;
/// `None` on any shape mismatch or absent key.
pub open spec fn spec_get(v: Value, key: Seq<char>) -> Option<Value> {
    match v {
        Value::Mapping(entries) => entries_lookup(entries@, key, entries@.len() as int),
        _ => None,
    }
}

/// The string bound to `key`, when the document is a mapping binding
/// `key` to a string; `None` otherwise.
pub open spec fn spec_get_str(v: Value, key: Seq<char>) -> Option<Seq<char>> {
    match spec_get(v, key) {
        Some(Value::Str(s)) => Some(s@),
        _ => None,
    }
}

/// The strings among the first `n` items of a sequence, in order;
/// non-string items are skipped.
pub open spec fn string_items_prefix(items: Seq<Value>, n: int) -> Seq<Seq<char>>
    decreases n,
{
    if n <= 0 {
        Seq::empty()
    } else {
        let pre = string_items_prefix(items, n - 1);
        match items[n - 1] {
            Value::Str(s) => pre.push(s@),
            _ => pre,
        }
    }
}

/// A longer prefix count only extends the collected strings.
pub proof fn lemma_string_items_prefix_extends(items: Seq<Value>, i: int, n: int)
    requires
        0 <= i <= n,
    ensures
        string_items_prefix(items, i).len() <= string_items_prefix(items, n).len(),
        forall|k: int|
            0 <= k < string_items_prefix(items, i).len() ==> #[trigger] string_items_prefix(
                items,
                n,
            )[k] == string_items_prefix(items, i)[k],
    decreases n,
{
    if i < n {
        lemma_string_items_prefix_extends(items, i, n - 1);
    }
}

/// The strings listed under `key`, when the document is a mapping
/// binding `key` to a sequence; empty on any shape mismatch.
/// Non-string items of the sequence are skipped.
pub open spec fn spec_get_str_list(v: Value, key: Seq<char>) -> Seq<Seq<char>> {
    match spec_get(v, key) {
        Some(Value::Sequence(items)) => string_items_prefix(items@, items@.len() as int),
        _ => Seq::empty(),
    }
}

impl Value {
    /// Look up `key` in a mapping document; `None` on shape mismatch
    /// or absent key.
    #[verifier::loop_isolation(false)]
    pub fn get<'a>(&'a self, key: &str) -> (r: Option<&'a Value>)
        ensures
            match r {
                Some(v) => spec_get(*self, key@) == Some(*v),
                None => spec_get(*self, key@) is None,
            },
    {
        match self {
            Value::Mapping(entries) => {
                let n = entries.len();
                let mut i: usize = 0;
                proof {
                    assert(entries@.skip(0) =~= entries@);
                }
                while i < n
                    invariant
                        n == entries@.len(),
                        0 <= i <= n,
                        entries_lookup(entries@, key@, n as int) == entries_lookup(
                            entries@.skip(i as int),
                            key@,
                            n - i,
                        ),
                    decreases n - i,
                {
                    proof {
                        assert(entries@.skip(i as int)[0] == entries@[i as int]);
                        assert(entries@.skip(i as int).drop_first() =~= entries@.skip(i + 1));
                    }
                    if str_eq_str(entries[i].0.as_str(), key) {
                        return Some(&entries[i].1);
                    }
                    i = i + 1;
                }
                proof {
                    assert(entries@.skip(n as int).len() == 0);
                }
                None
            },
            _ => None,
        }
    }

    /// The string inside a string document; `None` for any other shape.
    pub fn as_str<'a>(&'a self) -> (r: Option<&'a String>)
        ensures
            match r {
                Some(s) => *self matches Value::Str(t) && t == *s,
                None => !(*self matches Value::Str(_)),
            },
    {
        match self {
            Value::Str(s) => Some(s),
            _ => None,
        }
    }

    /// The items of a sequence document; `None` for any other shape.
    pub fn as_sequence<'a>(&'a self) -> (r: Option<&'a Vec<Value>>)
        ensures
            match r {
                Some(items) => *self matches Value::Sequence(v) && v == *items,
                None => !(*self matches Value::Sequence(_)),
            },
    {
        match self {
            Value::Sequence(items) => Some(items),
            _ => None,
        }
    }

    /// A deep copy, equal to the source structurally.
    #[verifier::loop_isolation(false)]
    pub fn duplicate(&self) -> (r: Value)
        ensures
            value_eq(r, *self),
        decreases *self,
    {
        match self {
            Value::Null => Value::Null,
            Value::Bool(b) => Value::Bool(*b),
            Value::Number(n) => Value::Number(*n),
            Value::Str(s) => Value::Str(s.clone()),
            Value::Sequence(items) => {
                let n = items.len();
                let mut out: Vec<Value> = Vec::new();
                let mut i: usize = 0;
                while i < n
                    invariant
                        n == items@.len(),
                        0 <= i <= n,
                        out@.len() == i,
                        forall|j: int| 0 <= j < i ==> value_eq(#[trigger] out@[j], items@[j]),
                    decreases n - i,
                {
                    let d = items[i].duplicate();
                    out.push(d);
                    i = i + 1;
                }
                Value::Sequence(out)
            },
            Value::Mapping(entries) => {
                let n = entries.len();
                let mut out: Vec<(String, Value)> = Vec::new();
                let mut i: usize = 0;
                while i < n
                    invariant
                        n == entries@.len(),
                        0 <= i <= n,
                        out@.len() == i,
                        forall|j: int|
                            0 <= j < i ==> (#[trigger] out@[j]).0@ == entries@[j].0@ && value_eq(
                                out@[j].1,
                                entries@[j].1,
                            ),
                    decreases n - i,
                {
                    let k = entries[i].0.clone();
                    let d = entries[i].1.duplicate();
                    out.push((k, d));
                    i = i + 1;
                }
                Value::Mapping(out)
            },
        }
    }
}


impl Clone for Value {
    /// A deep copy, equal to the source structurally.
    fn clone(&self) -> (r: Value)
        ensures
            value_eq(r, *self),
    {
        self.duplicate()
    }
}


} // verus!
