//! TOML documents as the pages read them: a tree of tables, arrays, strings,
//! integers and booleans, and the lookups that default to "absent" instead of
//! failing. (Floats and dates are kept only as `Other`: no page reads them
//! through these helpers.)
use vstd::prelude::*;

use crate::sort::views;
use crate::text::{first_index, lemma_first_index_is, lemma_first_index_none, owned, str_eq};

verus! {

/// One TOML value.
pub enum TomlValue {
    Str(String),
    Int(i64),
    Bool(bool),
    Array(Vec<TomlValue>),
    Table(TomlTable),
    /// A float or a date-time.
    Other,
}

/// A TOML table: its entries in document order.
pub struct TomlTable {
    pub entries: Vec<(String, TomlValue)>,
}

// ---------------------------------------------------------------------------
// Meaning
// ---------------------------------------------------------------------------

pub open spec fn key_is(es: Seq<(String, TomlValue)>, key: Seq<char>) -> spec_fn(int) -> bool {
    |i: int| es[i].0@ == key
}

/// `table.get(key)`.
pub open spec fn table_get(t: TomlTable, key: Seq<char>) -> Option<TomlValue> {
    match first_index(t.entries@.len() as int, key_is(t.entries@, key)) {
        Some(i) => Some(t.entries@[i].1),
        None => None,
    }
}

/// `value.get(key)`: only a table has entries.
pub open spec fn value_get(v: TomlValue, key: Seq<char>) -> Option<TomlValue> {
    match v {
        TomlValue::Table(t) => table_get(t, key),
        _ => None,
    }
}

/// Follows `path` from `v` one key at a time.
pub open spec fn walk(v: TomlValue, path: Seq<Seq<char>>) -> Option<TomlValue>
    decreases path.len(),
{
    if path.len() == 0 {
        Some(v)
    } else {
        match value_get(v, path[0]) {
            Some(x) => walk(x, path.drop_first()),
            None => None,
        }
    }
}

/// The value at a non-empty key path from the root table.
pub open spec fn path_value(root: TomlTable, path: Seq<Seq<char>>) -> Option<TomlValue> {
    if path.len() == 0 {
        None
    } else {
        match table_get(root, path[0]) {
            Some(x) => walk(x, path.drop_first()),
            None => None,
        }
    }
}

/// The text of a string value; empty for anything else or nothing.
pub open spec fn text_of(v: Option<TomlValue>) -> Seq<char> {
    match v {
        Some(TomlValue::Str(s)) => s@,
        _ => Seq::empty(),
    }
}

pub open spec fn int_of(v: Option<TomlValue>) -> Option<i64> {
    match v {
        Some(TomlValue::Int(n)) => Some(n),
        _ => None,
    }
}

pub open spec fn bool_of(v: Option<TomlValue>) -> Option<bool> {
    match v {
        Some(TomlValue::Bool(b)) => Some(b),
        _ => None,
    }
}

/// The strings of an array, skipping its other items; empty for anything
/// that is not an array.
pub open spec fn strings_in(items: Seq<TomlValue>) -> Seq<Seq<char>>
    decreases items.len(),
{
    if items.len() == 0 {
        Seq::empty()
    } else {
        match items.last() {
            TomlValue::Str(s) => strings_in(items.drop_last()).push(s@),
            _ => strings_in(items.drop_last()),
        }
    }
}

pub open spec fn string_list_of(v: Option<TomlValue>) -> Seq<Seq<char>> {
    match v {
        Some(TomlValue::Array(items)) => strings_in(items@),
        _ => Seq::empty(),
    }
}

/// The items of an array value; none for anything else.
pub open spec fn array_items(v: Option<TomlValue>) -> Seq<TomlValue> {
    match v {
        Some(TomlValue::Array(items)) => items@,
        _ => Seq::empty(),
    }
}

pub open spec fn path_views(path: Seq<&str>) -> Seq<Seq<char>> {
    path.map_values(|k: &str| k@)
}

// ---------------------------------------------------------------------------
// Lookups
// ---------------------------------------------------------------------------

impl TomlTable {
    /// The value under `key`.
    pub fn get(&self, key: &str) -> (r: Option<&TomlValue>)
        ensures
            match r {
                Some(v) => table_get(*self, key@) == Some(*v),
                None => table_get(*self, key@) is None,
            },
    {
        let ghost p = key_is(self.entries@, key@);
        let mut i: usize = 0;
        while i < self.entries.len()
            invariant
                i <= self.entries@.len(),
                p == key_is(self.entries@, key@),
                forall|j: int| 0 <= j < i ==> !#[trigger] p(j),
            decreases self.entries.len() - i,
        {
            if str_eq(self.entries[i].0.as_str(), key) {
                proof {
                    lemma_first_index_is(self.entries@.len() as int, p, i as int);
                }
                return Some(&self.entries[i].1);
            }
            i += 1;
        }
        proof {
            lemma_first_index_none(self.entries@.len() as int, p);
        }
        None
    }
}

impl TomlValue {
    /// The value under `key`, when this is a table.
    pub fn get(&self, key: &str) -> (r: Option<&TomlValue>)
        ensures
            match r {
                Some(v) => value_get(*self, key@) == Some(*v),
                None => value_get(*self, key@) is None,
            },
    {
        match self {
            TomlValue::Table(t) => t.get(key),
            _ => None,
        }
    }
}

/// The value at `path` (at least one key), following tables.
pub fn value_at<'a>(root: &'a TomlTable, path: &[&str]) -> (r: Option<&'a TomlValue>)
    ensures
        match r {
            Some(v) => path_value(*root, path_views(path@)) == Some(*v),
            None => path_value(*root, path_views(path@)) is None,
        },
{
    let ghost pv = path_views(path@);
    if path.len() == 0 {
        return None;
    }
    let mut cur = match root.get(path[0]) {
        Some(v) => v,
        None => return None,
    };
    proof {
        assert(pv[0] == path@[0]@);
    }
    let mut i: usize = 1;
    while i < path.len()
        invariant
            1 <= i <= path@.len(),
            pv == path_views(path@),
            path_value(*root, pv) == walk(*cur, pv.subrange(i as int, pv.len() as int)),
        decreases path.len() - i,
    {
        let ghost rest = pv.subrange(i as int, pv.len() as int);
        proof {
            assert(rest[0] == path@[i as int]@);
            assert(rest.drop_first() =~= pv.subrange(i + 1, pv.len() as int));
        }
        match cur.get(path[i]) {
            Some(v) => {
                cur = v;
            },
            None => return None,
        }
        i += 1;
    }
    proof {
        assert(pv.subrange(path@.len() as int, pv.len() as int) =~= Seq::<Seq<char>>::empty());
        assert(pv.drop_first() =~= pv.subrange(1, pv.len() as int));
    }
    Some(cur)
}

/// A value's text, or "" when it is not a string.
fn text_or_empty(v: Option<&TomlValue>) -> (r: &str)
    ensures
        r@ == text_of(match v {
            Some(x) => Some(*x),
            None => None,
        }),
{
    proof {
        reveal_strlit("");
    }
    match v {
        Some(TomlValue::Str(s)) => s.as_str(),
        _ => "",
    }
}

/// The strings of an array value, copied.
fn strings_of(v: Option<&TomlValue>) -> (r: Vec<String>)
    ensures
        views(r@) == string_list_of(match v {
            Some(x) => Some(*x),
            None => None,
        }),
{
    let mut out: Vec<String> = Vec::new();
    proof {
        assert(views(out@) =~= Seq::<Seq<char>>::empty());
    }
    match v {
        Some(TomlValue::Array(items)) => {
            let mut i: usize = 0;
            proof {
                assert(items@.take(0) =~= Seq::<TomlValue>::empty());
            }
            while i < items.len()
                invariant
                    i <= items@.len(),
                    views(out@) == strings_in(items@.take(i as int)),
                decreases items.len() - i,
            {
                proof {
                    assert(items@.take(i + 1).drop_last() =~= items@.take(i as int));
                    assert(items@.take(i + 1).last() == items@[i as int]);
                }
                match &items[i] {
                    TomlValue::Str(s) => {
                        let c = owned(s.as_str());
                        proof {
                            assert(views(out@.push(c)) =~= views(out@).push(c@));
                        }
                        out.push(c);
                    },
                    _ => {},
                }
                i += 1;
            }
            proof {
                assert(items@.take(items@.len() as int) =~= items@);
            }
            out
        },
        _ => out,
    }
}

/// The string under `key`, or "".
pub fn tstr<'a>(t: &'a TomlTable, key: &str) -> (r: &'a str)
    ensures
        r@ == text_of(table_get(*t, key@)),
{
    text_or_empty(t.get(key))
}

/// The boolean under `key`.
pub fn tbool(t: &TomlTable, key: &str) -> (r: Option<bool>)
    ensures
        r == bool_of(table_get(*t, key@)),
{
    match t.get(key) {
        Some(TomlValue::Bool(b)) => Some(*b),
        _ => None,
    }
}

/// The strings of the array under `key` (non-strings skipped).
pub fn tlist(t: &TomlTable, key: &str) -> (r: Vec<String>)
    ensures
        views(r@) == string_list_of(table_get(*t, key@)),
{
    strings_of(t.get(key))
}

/// The string at `path`, or "".
pub fn str_at<'a>(t: &'a TomlTable, path: &[&str]) -> (r: &'a str)
    ensures
        r@ == text_of(path_value(*t, path_views(path@))),
{
    text_or_empty(value_at(t, path))
}

/// The integer at `path`.
pub fn int_at(t: &TomlTable, path: &[&str]) -> (r: Option<i64>)
    ensures
        r == int_of(path_value(*t, path_views(path@))),
{
    match value_at(t, path) {
        Some(TomlValue::Int(n)) => Some(*n),
        _ => None,
    }
}

/// The boolean at `path`.
pub fn bool_at(t: &TomlTable, path: &[&str]) -> (r: Option<bool>)
    ensures
        r == bool_of(path_value(*t, path_views(path@))),
{
    match value_at(t, path) {
        Some(TomlValue::Bool(b)) => Some(*b),
        _ => None,
    }
}

/// The items of the array at `path`; none when it is not an array.
pub fn arr_at<'a>(t: &'a TomlTable, path: &[&str]) -> (r: Vec<&'a TomlValue>)
    ensures
        r@.len() == array_items(path_value(*t, path_views(path@))).len(),
        forall|i: int|
            0 <= i < r@.len() ==> *(#[trigger] r@[i]) == array_items(
                path_value(*t, path_views(path@)),
            )[i],
{
    let mut out: Vec<&'a TomlValue> = Vec::new();
    match value_at(t, path) {
        Some(TomlValue::Array(items)) => {
            let mut i: usize = 0;
            while i < items.len()
                invariant
                    i <= items@.len(),
                    out@.len() == i,
                    forall|j: int| 0 <= j < i ==> *out@[j] == items@[j],
                decreases items.len() - i,
            {
                out.push(&items[i]);
                i += 1;
            }
            out
        },
        _ => out,
    }
}

/// The table at `path`.
pub fn table_at<'a>(t: &'a TomlTable, path: &[&str]) -> (r: Option<&'a TomlTable>)
    ensures
        match r {
            Some(x) => path_value(*t, path_views(path@)) == Some(TomlValue::Table(*x)),
            None => !(path_value(*t, path_views(path@)) matches Some(TomlValue::Table(_))),
        },
{
    match value_at(t, path) {
        Some(TomlValue::Table(x)) => Some(x),
        _ => None,
    }
}

/// The strings of the array at `path` (non-strings skipped).
pub fn str_list(t: &TomlTable, path: &[&str]) -> (r: Vec<String>)
    ensures
        views(r@) == string_list_of(path_value(*t, path_views(path@))),
{
    strings_of(value_at(t, path))
}


// ---------------------------------------------------------------------------
// Reading a document
// ---------------------------------------------------------------------------

#[verifier::external_type_specification]
#[verifier::external_body]
pub struct ExTomlValue(toml::Value);

/// The tree the `toml` crate parses `src` into, if it accepts the text.
pub uninterp spec fn toml_tree_of(src: Seq<char>) -> Option<TomlTable>;

/// Trusted: one `toml::Value` as a `TomlValue`, variant for variant:
/// strings, integers, booleans, arrays and tables keep their contents;
/// floats and date-times become `Other`. Called only by `toml_of`.
#[verifier::external_body]
fn toml_value(v: &toml::Value) -> (r: TomlValue) {
    match v {
        toml::Value::String(s) => TomlValue::Str(s.clone()),
        toml::Value::Integer(n) => TomlValue::Int(*n),
        toml::Value::Boolean(b) => TomlValue::Bool(*b),
        toml::Value::Array(a) => TomlValue::Array(a.iter().map(toml_value).collect()),
        toml::Value::Table(t) => TomlValue::Table(TomlTable {
            entries: t.iter().map(|(k, x)| (k.clone(), toml_value(x))).collect(),
        }),
        _ => TomlValue::Other,
    }
}

/// Trusted: `src.parse::<toml::Table>()`, converted entry for entry (in the
/// order the crate's map yields them) by `toml_value`; the crate's parse
/// error is dropped and an empty table stands for a text it rejects. The
/// contract names the parsed tree as a function of the text; which texts
/// the crate accepts is not stated.
#[verifier::external_body]
pub fn toml_of(src: &str) -> (t: TomlTable)
    ensures
        toml_tree_of(src@) == Some(t) || (toml_tree_of(src@) is None && t.entries@.len() == 0),
{
    match src.parse::<toml::Table>() {
        Ok(t) => TomlTable { entries: t.iter().map(|(k, x)| (k.clone(), toml_value(x))).collect() },
        Err(_) => TomlTable { entries: Vec::new() },
    }
}

} // verus!
