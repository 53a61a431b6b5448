//! Plain-data model of a TOML value, as the TOML parser hands it over.

use vstd::prelude::*;
use crate::text::str_eq;

verus! {

/// A TOML value. Floats and datetimes keep their TOML text; tables keep
/// their entries in the parser's key order.
#[derive(Debug)]
pub enum TomlValue {
    String(String),
    Integer(i64),
    Float(String),
    Boolean(bool),
    Datetime(String),
    Array(Vec<TomlValue>),
    Table(Vec<(String, TomlValue)>),
}


/// The value under `key` in table entries `t`: the first entry with that
/// key.
pub open spec fn entries_get(t: Seq<(String, TomlValue)>, key: Seq<char>) -> Option<TomlValue>
    decreases t.len(),
{
    if t.len() == 0 {
        None
    } else if t[0].0@ == key {
        Some(t[0].1)
    } else {
        entries_get(t.drop_first(), key)
    }
}

/// The value under `key` when `v` is a table.
pub open spec fn toml_get(v: TomlValue, key: Seq<char>) -> Option<TomlValue> {
    match v {
        TomlValue::Table(t) => entries_get(t@, key),
        _ => None,
    }
}

/// The text of a string value.
pub open spec fn opt_str(v: Option<TomlValue>) -> Option<Seq<char>> {
    match v {
        Some(TomlValue::String(s)) => Some(s@),
        _ => None,
    }
}

/// The integer of an integer value.
pub open spec fn opt_int(v: Option<TomlValue>) -> Option<i64> {
    match v {
        Some(TomlValue::Integer(i)) => Some(i),
        _ => None,
    }
}

/// The elements of an array value.
pub open spec fn opt_array(v: Option<TomlValue>) -> Option<Seq<TomlValue>> {
    match v {
        Some(TomlValue::Array(a)) => Some(a@),
        _ => None,
    }
}

/// The entries of a table value.
pub open spec fn opt_table(v: Option<TomlValue>) -> Option<Seq<(String, TomlValue)>> {
    match v {
        Some(TomlValue::Table(t)) => Some(t@),
        _ => None,
    }
}

/// The value under `key` in table entries `t`.
pub fn entry<'a>(t: &'a Vec<(String, TomlValue)>, key: &str) -> (r: Option<&'a TomlValue>)
    ensures
        match r {
            Some(v) => entries_get(t@, key@) == Some(*v),
            None => entries_get(t@, key@) is None,
        },
{
    let mut i: usize = 0;
    assert(t@.skip(0) =~= t@);
    while i < t.len()
        invariant
            0 <= i <= t@.len(),
            entries_get(t@, key@) == entries_get(t@.skip(i as int), key@),
        decreases t@.len() - i,
    {
        assert(t@.skip(i as int).drop_first() =~= t@.skip(i + 1));
        assert(t@.skip(i as int)[0] == t@[i as int]);
        if str_eq(t[i].0.as_str(), key) {
            return Some(&t[i].1);
        }
        i += 1;
    }
    None
}

impl TomlValue {
    /// `as_table().get(key)`.
    pub fn get(&self, key: &str) -> (r: Option<&TomlValue>)
        ensures
            match r {
                Some(v) => toml_get(*self, key@) == Some(*v),
                None => toml_get(*self, key@) is None,
            },
    {
        match self {
            TomlValue::Table(t) => entry(t, key),
            _ => None,
        }
    }

    /// `as_str()`.
    pub fn as_str(&self) -> (r: Option<&str>)
        ensures
            match r {
                Some(s) => opt_str(Some(*self)) == Some(s@),
                None => opt_str(Some(*self)) is None,
            },
    {
        match self {
            TomlValue::String(s) => Some(s.as_str()),
            _ => None,
        }
    }

    /// `as_integer()`.
    pub fn as_integer(&self) -> (r: Option<i64>)
        ensures
            r == opt_int(Some(*self)),
    {
        match self {
            TomlValue::Integer(i) => Some(*i),
            _ => None,
        }
    }

    /// `as_array()`.
    pub fn as_array(&self) -> (r: Option<&Vec<TomlValue>>)
        ensures
            match r {
                Some(a) => opt_array(Some(*self)) == Some(a@),
                None => opt_array(Some(*self)) is None,
            },
    {
        match self {
            TomlValue::Array(a) => Some(a),
            _ => None,
        }
    }

    /// `as_table()`.
    pub fn as_table(&self) -> (r: Option<&Vec<(String, TomlValue)>>)
        ensures
            match r {
                Some(t) => opt_table(Some(*self)) == Some(t@),
                None => opt_table(Some(*self)) is None,
            },
    {
        match self {
            TomlValue::Table(t) => Some(t),
            _ => None,
        }
    }
}


/// `a` and `b` are the same TOML value: same variant, same scalar, same
/// texts, and elements and entries the same in order.
pub open spec fn toml_same(a: TomlValue, b: TomlValue) -> bool
    decreases a,
{
    match a {
        TomlValue::String(x) => b matches TomlValue::String(y) && x@ == y@,
        TomlValue::Integer(x) => b matches TomlValue::Integer(y) && x == y,
        TomlValue::Float(x) => b matches TomlValue::Float(y) && x@ == y@,
        TomlValue::Boolean(x) => b matches TomlValue::Boolean(y) && x == y,
        TomlValue::Datetime(x) => b matches TomlValue::Datetime(y) && x@ == y@,
        TomlValue::Array(x) => b matches TomlValue::Array(y) && x@.len() == y@.len() && forall|i: int|
            0 <= i < x@.len() ==> #[trigger] toml_same(x@[i], y@[i]),
        TomlValue::Table(x) => b matches TomlValue::Table(y) && x@.len() == y@.len() && forall|i: int|
            0 <= i < x@.len() ==> x@[i].0@ == y@[i].0@ && #[trigger] toml_same(x@[i].1, y@[i].1),
    }
}

/// A copy of `v`.
pub fn copy_value(v: &TomlValue) -> (r: TomlValue)
    ensures
        toml_same(*v, r),
    decreases v,
{
    match v {
        TomlValue::String(s) => {
            let c = s.clone();
            let r = TomlValue::String(c);
            assert(toml_same(*v, r));
            r
        },
        TomlValue::Integer(i) => TomlValue::Integer(*i),
        TomlValue::Float(s) => TomlValue::Float(s.clone()),
        TomlValue::Boolean(b) => TomlValue::Boolean(*b),
        TomlValue::Datetime(s) => TomlValue::Datetime(s.clone()),
        TomlValue::Array(a) => {
            let mut out: Vec<TomlValue> = Vec::new();
            for i in 0..a.len()
                invariant
                    *v == TomlValue::Array(*a),
                    out@.len() == i,
                    forall|j: int| 0 <= j < i ==> toml_same(a@[j], #[trigger] out@[j]),
            {
                proof {
                    vstd::std_specs::vec::axiom_vec_index_decreases(*a, i as int);
                    assert(decreases_to!(*v => (*v)->Array_0));
                }
                out.push(copy_value(&a[i]));
            }
            let r = TomlValue::Array(out);
            assert(toml_same(*v, r));
            r
        },
        TomlValue::Table(t) => {
            let mut out: Vec<(String, TomlValue)> = Vec::new();
            let n = t.len();
            for i in 0..n
                invariant
                    n == t@.len(),
                    *v == TomlValue::Table(*t),
                    out@.len() == i,
                    forall|j: int| 0 <= j < i ==> t@[j].0@ == (#[trigger] out@[j]).0@ && toml_same(t@[j].1, out@[j].1),
            {
                proof {
                    vstd::std_specs::vec::axiom_vec_index_decreases(*t, i as int);
                    assert(decreases_to!(*v => (*v)->Table_0));
                    assert(decreases_to!(t@[i as int] => t@[i as int].1));
                }
                let k = t[i].0.clone();
                let c = copy_value(&t[i].1);
                let ghost before = out@;
                out.push((k, c));
                assert(forall|j: int| 0 <= j < i ==> out@[j] == before[j]);
            }
            let r = TomlValue::Table(out);
            assert(toml_same(*v, r));
            r
        },
    }
}

} // verus!
