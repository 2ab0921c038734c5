//! Values of a parsed document and the accessors that read them.
use vstd::prelude::*;
use crate::config_get_error::{ConfigGetError, ConfigGetErrorV};
use crate::text::{int_text, nat_text, push_int_text, push_quoted, push_usize_text, quoted};
use crate::token::{FloatValue, FloatValueV, float_text};

verus! {

#[derive(Debug, PartialEq)]
pub enum TomlValue {
    String(String),
    Integer(i64),
    Float(FloatValue),
    Boolean(bool),
    DateTime(String),
    Array(Vec<TomlValue>),
    /// The entries of a table, in the order in which their keys first appeared.
    Table(Vec<(String, TomlValue)>),
}

/// Mathematical model of a [`TomlValue`].
pub enum TomlValueV {
    String(Seq<char>),
    Integer(i64),
    Float(FloatValueV),
    Boolean(bool),
    DateTime(Seq<char>),
    Array(Seq<TomlValueV>),
    Table(Seq<(Seq<char>, TomlValueV)>),
}

pub open spec fn value_view(v: TomlValue) -> TomlValueV
    decreases v,
{
    match v {
        TomlValue::String(s) => TomlValueV::String(s@),
        TomlValue::Integer(n) => TomlValueV::Integer(n),
        TomlValue::Float(f) => TomlValueV::Float(f@),
        TomlValue::Boolean(b) => TomlValueV::Boolean(b),
        TomlValue::DateTime(s) => TomlValueV::DateTime(s@),
        TomlValue::Array(a) => TomlValueV::Array(
            Seq::new(
                a@.len(),
                |i: int|
                    if 0 <= i < a@.len() {
                        value_view(a@[i])
                    } else {
                        TomlValueV::Boolean(false)
                    },
            ),
        ),
        TomlValue::Table(t) => TomlValueV::Table(
            Seq::new(
                t@.len(),
                |i: int|
                    if 0 <= i < t@.len() {
                        (t@[i].0@, value_view(t@[i].1))
                    } else {
                        (Seq::empty(), TomlValueV::Boolean(false))
                    },
            ),
        ),
    }
}

impl View for TomlValue {
    type V = TomlValueV;

    open spec fn view(&self) -> TomlValueV {
        value_view(*self)
    }
}

/// The model of a table: its keys and values, in order.
pub type TableV = Seq<(Seq<char>, TomlValueV)>;

/// The models of the entries of a table.
pub open spec fn entries_view(t: Seq<(String, TomlValue)>) -> TableV {
    Seq::new(t.len(), |i: int| (t[i].0@, value_view(t[i].1)))
}

/// The models of the elements of an array.
pub open spec fn values_view(a: Seq<TomlValue>) -> Seq<TomlValueV> {
    Seq::new(a.len(), |i: int| value_view(a[i]))
}

pub proof fn lemma_array_view(a: Vec<TomlValue>)
    ensures
        value_view(TomlValue::Array(a)) == TomlValueV::Array(values_view(a@)),
{
    let v = value_view(TomlValue::Array(a));
    assert(v->Array_0 =~= values_view(a@));
}

pub proof fn lemma_table_view(t: Vec<(String, TomlValue)>)
    ensures
        value_view(TomlValue::Table(t)) == TomlValueV::Table(entries_view(t@)),
{
    let v = value_view(TomlValue::Table(t));
    assert(v->Table_0 =~= entries_view(t@));
}

/// Index of the first entry of `t` from `i` on whose key is `k`, or -1.
pub open spec fn key_index_from<V>(t: Seq<(Seq<char>, V)>, k: Seq<char>, i: int) -> int
    decreases t.len() - i,
{
    if i < 0 || i >= t.len() {
        -1
    } else if t[i].0 == k {
        i
    } else {
        key_index_from(t, k, i + 1)
    }
}

/// Index of the first entry of `t` whose key is `k`, or -1.
pub open spec fn key_index<V>(t: Seq<(Seq<char>, V)>, k: Seq<char>) -> int {
    key_index_from(t, k, 0)
}

pub proof fn lemma_key_index_from<V>(t: Seq<(Seq<char>, V)>, k: Seq<char>, i: int)
    requires
        0 <= i,
    ensures
        key_index_from(t, k, i) == -1 || (i <= key_index_from(t, k, i) < t.len() && t[key_index_from(
            t,
            k,
            i,
        )].0 == k),
        forall|j: int|
            i <= j < t.len() && (key_index_from(t, k, i) == -1 || j < key_index_from(t, k, i))
                ==> t[j].0 != k,
    decreases t.len() - i,
{
    if i < t.len() && t[i].0 != k {
        lemma_key_index_from(t, k, i + 1);
    }
}

pub proof fn lemma_key_index<V>(t: Seq<(Seq<char>, V)>, k: Seq<char>)
    ensures
        key_index(t, k) == -1 || (0 <= key_index(t, k) < t.len() && t[key_index(t, k)].0 == k),
        key_index(t, k) == -1 <==> forall|j: int| 0 <= j < t.len() ==> t[j].0 != k,
        forall|j: int| 0 <= j < key_index(t, k) ==> t[j].0 != k,
{
    lemma_key_index_from(t, k, 0);
}

/// The value under key `k` in `t`.
pub open spec fn table_get<V>(t: Seq<(Seq<char>, V)>, k: Seq<char>) -> Option<V> {
    if key_index(t, k) >= 0 {
        Some(t[key_index(t, k)].1)
    } else {
        None
    }
}

/// `t` with `k` bound to `v`: the entry of `k` is replaced, or added at the end.
pub open spec fn table_set<V>(t: Seq<(Seq<char>, V)>, k: Seq<char>, v: V) -> Seq<(Seq<char>, V)> {
    if key_index(t, k) >= 0 {
        t.update(key_index(t, k), (k, v))
    } else {
        t.push((k, v))
    }
}

/// Whether no key occurs twice in `t`.
pub open spec fn keys_unique<V>(t: Seq<(Seq<char>, V)>) -> bool {
    forall|i: int, j: int| 0 <= i < j < t.len() ==> t[i].0 != t[j].0
}

/// Reading a key gives back what was last written under it, writing leaves the
/// other keys as they were, and no key comes to occur twice.
pub proof fn lemma_set_then_get<V>(t: Seq<(Seq<char>, V)>, k: Seq<char>, v: V, other: Seq<char>)
    ensures
        table_get(table_set(t, k, v), k) == Some(v),
        other != k ==> table_get(table_set(t, k, v), other) == table_get(t, other),
        keys_unique(t) ==> keys_unique(table_set(t, k, v)),
{
    let r = table_set(t, k, v);
    lemma_key_index(t, k);
    lemma_key_index(t, other);
    lemma_key_index(r, k);
    lemma_key_index(r, other);
    if key_index(t, k) >= 0 {
        assert(r[key_index(t, k)].0 == k);
    } else {
        assert(r[t.len() as int].0 == k);
    }
    if other != k {
        if key_index(t, other) >= 0 {
            assert(r[key_index(t, other)].0 == other);
        }
        if key_index(r, other) >= 0 {
            assert(t[key_index(r, other)].0 == other);
        }
    }
}

/// Whether no table within `v`, `v` included, holds a key twice.
pub open spec fn well_keyed(v: TomlValueV) -> bool
    decreases v, 0int,
{
    match v {
        TomlValueV::Table(t) => keys_unique(t) && entries_well_keyed(t, t.len() as int),
        TomlValueV::Array(a) => items_well_keyed(a, a.len() as int),
        _ => true,
    }
}

/// Whether the values of the first `n` entries of `t` are well keyed.
pub open spec fn entries_well_keyed(t: TableV, n: int) -> bool
    decreases t, n,
{
    if n <= 0 || n > t.len() {
        n <= 0
    } else {
        well_keyed(t[n - 1].1) && entries_well_keyed(t, n - 1)
    }
}

/// Whether the first `n` elements of `a` are well keyed.
pub open spec fn items_well_keyed(a: Seq<TomlValueV>, n: int) -> bool
    decreases a, n,
{
    if n <= 0 || n > a.len() {
        n <= 0
    } else {
        well_keyed(a[n - 1]) && items_well_keyed(a, n - 1)
    }
}

pub proof fn lemma_entries_well_keyed(t: TableV, n: int)
    requires
        0 <= n <= t.len(),
    ensures
        entries_well_keyed(t, n) <==> forall|i: int| 0 <= i < n ==> #[trigger] well_keyed(t[i].1),
    decreases n,
{
    if n > 0 {
        lemma_entries_well_keyed(t, n - 1);
        assert(entries_well_keyed(t, n) == (well_keyed(t[n - 1].1) && entries_well_keyed(t, n - 1)));
    } else {
        assert(entries_well_keyed(t, n));
    }
}

pub proof fn lemma_items_well_keyed(a: Seq<TomlValueV>, n: int)
    requires
        0 <= n <= a.len(),
    ensures
        items_well_keyed(a, n) <==> forall|i: int| 0 <= i < n ==> #[trigger] well_keyed(a[i]),
    decreases n,
{
    if n > 0 {
        lemma_items_well_keyed(a, n - 1);
        assert(items_well_keyed(a, n) == (well_keyed(a[n - 1]) && items_well_keyed(a, n - 1)));
    } else {
        assert(items_well_keyed(a, n));
    }
}

/// A table is well keyed when no key occurs twice in it and each value is well keyed.
pub proof fn lemma_well_keyed_table(t: TableV)
    ensures
        well_keyed(TomlValueV::Table(t)) <==> keys_unique(t) && forall|i: int|
            0 <= i < t.len() ==> #[trigger] well_keyed(t[i].1),
{
    lemma_entries_well_keyed(t, t.len() as int);
}

/// An array is well keyed when each of its elements is.
pub proof fn lemma_well_keyed_array(a: Seq<TomlValueV>)
    ensures
        well_keyed(TomlValueV::Array(a)) <==> forall|i: int| 0 <= i < a.len() ==> #[trigger] well_keyed(a[i]),
{
    lemma_items_well_keyed(a, a.len() as int);
}

/// Writing a well-keyed value into a well-keyed table gives a well-keyed table.
pub proof fn lemma_set_well_keyed(t: TableV, k: Seq<char>, v: TomlValueV)
    requires
        well_keyed(TomlValueV::Table(t)),
        well_keyed(v),
    ensures
        well_keyed(TomlValueV::Table(table_set(t, k, v))),
{
    lemma_set_then_get(t, k, v, k);
    lemma_key_index(t, k);
    lemma_well_keyed_table(t);
    let r = table_set(t, k, v);
    assert forall|i: int| 0 <= i < r.len() implies #[trigger] well_keyed(r[i].1) by {
        if key_index(t, k) >= 0 {
            if i != key_index(t, k) {
                assert(r[i] == t[i]);
            }
        } else {
            if i < t.len() {
                assert(r[i] == t[i]);
            }
        }
    }
    lemma_well_keyed_table(r);
}

/// Index of the entry with the given key.
pub(crate) fn table_find(t: &Vec<(String, TomlValue)>, key: &String) -> (r: Option<usize>)
    ensures
        match r {
            Some(i) => i == key_index(entries_view(t@), key@),
            None => key_index(entries_view(t@), key@) == -1,
        },
{
    let ghost tv = entries_view(t@);
    proof {
        lemma_key_index(tv, key@);
    }
    let mut i: usize = 0;
    while i < t.len()
        invariant
            tv == entries_view(t@),
            i <= t.len(),
            forall|j: int| 0 <= j < i ==> tv[j].0 != key@,
            key_index(tv, key@) == -1 || (0 <= key_index(tv, key@) < t.len() && tv[key_index(
                tv,
                key@,
            )].0 == key@),
            forall|j: int| 0 <= j < key_index(tv, key@) ==> tv[j].0 != key@,
        decreases t.len() - i,
    {
        if t[i].0 == *key {
            proof {
                lemma_key_index(tv, key@);
                assert(tv[i as int].0 == key@);
            }
            return Some(i);
        }
        i = i + 1;
    }
    None
}

/// Binds `key` to `value`: the entry of `key` is replaced, or added at the end.
pub(crate) fn table_insert(t: &mut Vec<(String, TomlValue)>, key: String, value: TomlValue)
    ensures
        entries_view(final(t)@) == table_set(entries_view(old(t)@), key@, value@),
{
    proof {
        lemma_key_index(entries_view(t@), key@);
    }
    match table_find(t, &key) {
        Some(i) => {
            t.set(i, (key, value));
            proof {
                assert(entries_view(t@) =~= entries_view(old(t)@).update(i as int, (key@, value@)));
            }
        },
        None => {
            t.push((key, value));
            proof {
                assert(entries_view(t@) =~= entries_view(old(t)@).push((key@, value@)));
            }
        },
    }
}


// ---------------------------------------------------------------- reading values

/// The name of the type of a value, as messages give it.
pub open spec fn kind_name(v: TomlValueV) -> Seq<char> {
    match v {
        TomlValueV::String(_) => "string"@,
        TomlValueV::Integer(_) => "integer"@,
        TomlValueV::Float(_) => "float"@,
        TomlValueV::Boolean(_) => "boolean"@,
        TomlValueV::Table(_) => "table"@,
        TomlValueV::Array(_) => "array"@,
        TomlValueV::DateTime(_) => "datetime"@,
    }
}

/// The error for a value found under `path` that is not of the `expected` type.
pub open spec fn mismatch(path: Seq<char>, expected: Seq<char>, found: TomlValueV) -> ConfigGetErrorV {
    ConfigGetErrorV::TypeMismatch { path, expected, found: kind_name(found) }
}

/// The value under `key` in the table `v`.
pub open spec fn lookup(v: TomlValueV, key: Seq<char>) -> Result<TomlValueV, ConfigGetErrorV> {
    match v {
        TomlValueV::Table(t) => match table_get(t, key) {
            Some(x) => Ok(x),
            None => Err(ConfigGetErrorV::MissingKey { key }),
        },
        other => Err(mismatch(key, "table"@, other)),
    }
}

/// The element at `index` of the array under `path` in the table `v`.
pub open spec fn lookup_index(v: TomlValueV, path: Seq<char>, index: nat) -> Result<
    TomlValueV,
    ConfigGetErrorV,
> {
    match lookup(v, path) {
        Err(e) => Err(e),
        Ok(TomlValueV::Array(a)) => if index < a.len() {
            Ok(a[index as int])
        } else {
            Err(
                ConfigGetErrorV::IndexOutOfBounds {
                    path: path + "["@ + nat_text(index) + "]"@,
                    index,
                    len: a.len(),
                },
            )
        },
        Ok(other) => Err(mismatch(path, "array"@, other)),
    }
}

/// The boolean under `key` in the table `v`.
pub open spec fn bool_at(v: TomlValueV, key: Seq<char>) -> Result<bool, ConfigGetErrorV> {
    match lookup(v, key) {
        Err(e) => Err(e),
        Ok(TomlValueV::Boolean(b)) => Ok(b),
        Ok(other) => Err(mismatch(key, "boolean"@, other)),
    }
}

/// The integer under `key` in the table `v`.
pub open spec fn int_at(v: TomlValueV, key: Seq<char>) -> Result<i64, ConfigGetErrorV> {
    match lookup(v, key) {
        Err(e) => Err(e),
        Ok(TomlValueV::Integer(n)) => Ok(n),
        Ok(other) => Err(mismatch(key, "integer"@, other)),
    }
}

/// The float under `key` in the table `v`.
pub open spec fn float_at(v: TomlValueV, key: Seq<char>) -> Result<FloatValueV, ConfigGetErrorV> {
    match lookup(v, key) {
        Err(e) => Err(e),
        Ok(TomlValueV::Float(f)) => Ok(f),
        Ok(other) => Err(mismatch(key, "float"@, other)),
    }
}

/// The string under `key` in the table `v`.
pub open spec fn str_at(v: TomlValueV, key: Seq<char>) -> Result<Seq<char>, ConfigGetErrorV> {
    match lookup(v, key) {
        Err(e) => Err(e),
        Ok(TomlValueV::String(s)) => Ok(s),
        Ok(other) => Err(mismatch(key, "string"@, other)),
    }
}

/// The path that a read error names.
pub open spec fn error_path(e: ConfigGetErrorV) -> Seq<char> {
    match e {
        ConfigGetErrorV::MissingKey { key } => key,
        ConfigGetErrorV::TypeMismatch { path, .. } => path,
        ConfigGetErrorV::IndexOutOfBounds { path, .. } => path,
    }
}

/// Read errors name what was asked for, not where it stands in a document: a
/// failed read of `key` names `key`, and a failed read of element `index` of
/// the array `key` names `key`, or `key[index]` when the array is too short, with
/// the array's length.
pub proof fn lemma_read_errors_name_the_path(v: TomlValueV, key: Seq<char>, index: nat)
    ensures
        lookup(v, key) matches Err(e) ==> error_path(e) == key,
        bool_at(v, key) matches Err(e) ==> error_path(e) == key,
        int_at(v, key) matches Err(e) ==> error_path(e) == key,
        float_at(v, key) matches Err(e) ==> error_path(e) == key,
        str_at(v, key) matches Err(e) ==> error_path(e) == key,
        lookup_index(v, key, index) matches Err(e) ==> error_path(e) == key || error_path(e) == key
            + "["@ + nat_text(index) + "]"@,
        lookup_index(v, key, index) matches Err(ConfigGetErrorV::IndexOutOfBounds { index: i, len, .. })
            ==> i == index && len <= index && (lookup(v, key) matches Ok(TomlValueV::Array(a))
            && a.len() == len),
{
}

/// Reading element `index` of an array reads exactly that element: where the value
/// under `key` is the array `a`, an index below `a.len()` gives `a[index]`, and any
/// other index gives the out-of-bounds error carrying that index and the length.
pub proof fn lemma_index_reads_element(v: TomlValueV, key: Seq<char>, a: Seq<TomlValueV>, index: nat)
    requires
        lookup(v, key) == Ok::<TomlValueV, ConfigGetErrorV>(TomlValueV::Array(a)),
    ensures
        index < a.len() ==> lookup_index(v, key, index) == Ok::<TomlValueV, ConfigGetErrorV>(
            a[index as int],
        ),
        index >= a.len() ==> (lookup_index(v, key, index) matches Err(
            ConfigGetErrorV::IndexOutOfBounds { index: i, len, .. },
        ) && i == index && len == a.len()),
{
}

/// A typed read gives back the value that a plain read finds, when it has that
/// type: a boolean, integer, float or string stored under `key` is what the
/// matching typed read returns, and the other typed reads of it fail.
pub proof fn lemma_typed_reads_agree(v: TomlValueV, key: Seq<char>)
    ensures
        lookup(v, key) matches Ok(TomlValueV::Boolean(b)) ==> bool_at(v, key) == Ok::<
            bool,
            ConfigGetErrorV,
        >(b) && int_at(v, key) is Err && float_at(v, key) is Err && str_at(v, key) is Err,
        lookup(v, key) matches Ok(TomlValueV::Integer(n)) ==> int_at(v, key) == Ok::<
            i64,
            ConfigGetErrorV,
        >(n) && bool_at(v, key) is Err && float_at(v, key) is Err && str_at(v, key) is Err,
        lookup(v, key) matches Ok(TomlValueV::Float(f)) ==> float_at(v, key) == Ok::<
            FloatValueV,
            ConfigGetErrorV,
        >(f) && bool_at(v, key) is Err && int_at(v, key) is Err && str_at(v, key) is Err,
        lookup(v, key) matches Ok(TomlValueV::String(s)) ==> str_at(v, key) == Ok::<
            Seq<char>,
            ConfigGetErrorV,
        >(s) && bool_at(v, key) is Err && int_at(v, key) is Err && float_at(v, key) is Err,
{
}

/// The name of the type of a value.
pub fn toml_type_name(value: &TomlValue) -> (r: &'static str)
    ensures
        r@ == kind_name(value@),
{
    match value {
        TomlValue::String(_) => "string",
        TomlValue::Integer(_) => "integer",
        TomlValue::Float(_) => "float",
        TomlValue::Boolean(_) => "boolean",
        TomlValue::Table(_) => "table",
        TomlValue::Array(_) => "array",
        TomlValue::DateTime(_) => "datetime",
    }
}

fn mismatch_error(path: &str, expected: &str, found: &TomlValue) -> (r: ConfigGetError)
    ensures
        r@ == mismatch(path@, expected@, found@),
{
    ConfigGetError::TypeMismatch {
        path: String::from_str(path),
        expected: String::from_str(expected),
        found: String::from_str(toml_type_name(found)),
    }
}

impl TomlValue {
    /// The value under `key`, when `self` is a table that has it.
    pub fn get(&self, key: &str) -> (r: Result<&TomlValue, ConfigGetError>)
        ensures
            match r {
                Ok(x) => lookup(self@, key@) == Ok::<TomlValueV, ConfigGetErrorV>(x@),
                Err(e) => lookup(self@, key@) == Err::<TomlValueV, ConfigGetErrorV>(e@),
            },
    {
        match self {
            TomlValue::Table(map) => {
                proof {
                    lemma_table_view(*map);
                }
                let k = String::from_str(key);
                proof {
                    lemma_key_index(entries_view(map@), key@);
                }
                match table_find(map, &k) {
                    Some(i) => Ok(&map[i].1),
                    None => Err(ConfigGetError::MissingKey { key: k }),
                }
            },
            actual => Err(mismatch_error(key, "table", actual)),
        }
    }

    /// The element at `index` of the array under `path`.
    pub fn get_at_index(&self, path: &str, index: usize) -> (r: Result<&TomlValue, ConfigGetError>)
        ensures
            match r {
                Ok(x) => lookup_index(self@, path@, index as nat) == Ok::<
                    TomlValueV,
                    ConfigGetErrorV,
                >(x@),
                Err(e) => lookup_index(self@, path@, index as nat) == Err::<
                    TomlValueV,
                    ConfigGetErrorV,
                >(e@),
            },
    {
        let v = match self.get(path) {
            Ok(v) => v,
            Err(e) => {
                return Err(e);
            },
        };
        match v {
            TomlValue::Array(arr) => {
                proof {
                    lemma_array_view(*arr);
                }
                if index < arr.len() {
                    Ok(&arr[index])
                } else {
                    let mut p = String::from_str(path);
                    p.append("[");
                    push_usize_text(&mut p, index);
                    p.append("]");
                    Err(ConfigGetError::IndexOutOfBounds { path: p, index, len: arr.len() })
                }
            },
            actual => Err(mismatch_error(path, "array", actual)),
        }
    }

    /// The boolean under `key`.
    pub fn as_bool(&self, key: &str) -> (r: Result<bool, ConfigGetError>)
        ensures
            match r {
                Ok(b) => bool_at(self@, key@) == Ok::<bool, ConfigGetErrorV>(b),
                Err(e) => bool_at(self@, key@) == Err::<bool, ConfigGetErrorV>(e@),
            },
    {
        match self.get(key) {
            Err(e) => Err(e),
            Ok(TomlValue::Boolean(b)) => Ok(*b),
            Ok(actual) => Err(mismatch_error(key, "boolean", actual)),
        }
    }

    /// The float under `key`.
    pub fn as_float(&self, key: &str) -> (r: Result<FloatValue, ConfigGetError>)
        ensures
            match r {
                Ok(f) => float_at(self@, key@) == Ok::<FloatValueV, ConfigGetErrorV>(f@),
                Err(e) => float_at(self@, key@) == Err::<FloatValueV, ConfigGetErrorV>(e@),
            },
    {
        match self.get(key) {
            Err(e) => Err(e),
            Ok(TomlValue::Float(f)) => Ok(f.copy()),
            Ok(actual) => Err(mismatch_error(key, "float", actual)),
        }
    }

    /// The integer under `key`.
    pub fn as_int(&self, key: &str) -> (r: Result<i64, ConfigGetError>)
        ensures
            match r {
                Ok(n) => int_at(self@, key@) == Ok::<i64, ConfigGetErrorV>(n),
                Err(e) => int_at(self@, key@) == Err::<i64, ConfigGetErrorV>(e@),
            },
    {
        match self.get(key) {
            Err(e) => Err(e),
            Ok(TomlValue::Integer(n)) => Ok(*n),
            Ok(actual) => Err(mismatch_error(key, "integer", actual)),
        }
    }

    /// The string under `key`.
    pub fn as_str(&self, key: &str) -> (r: Result<&str, ConfigGetError>)
        ensures
            match r {
                Ok(s) => str_at(self@, key@) == Ok::<Seq<char>, ConfigGetErrorV>(s@),
                Err(e) => str_at(self@, key@) == Err::<Seq<char>, ConfigGetErrorV>(e@),
            },
    {
        match self.get(key) {
            Err(e) => Err(e),
            Ok(TomlValue::String(s)) => Ok(s.as_str()),
            Ok(actual) => Err(mismatch_error(key, "string", actual)),
        }
    }
}

// ---------------------------------------------------------------- text of values

/// `parts` with `sep` between each two of them.
pub open spec fn join(parts: Seq<Seq<char>>, sep: Seq<char>) -> Seq<char>
    decreases parts.len(),
{
    if parts.len() == 0 {
        seq![]
    } else if parts.len() == 1 {
        parts[0]
    } else {
        join(parts.drop_last(), sep) + sep + parts.last()
    }
}

/// How a value is written in the form of Rust's `Debug`.
pub open spec fn value_debug(v: TomlValueV) -> Seq<char>
    decreases v, 1int,
{
    match v {
        TomlValueV::String(s) => "String("@ + quoted(s) + ")"@,
        TomlValueV::Integer(n) => "Integer("@ + int_text(n as int) + ")"@,
        TomlValueV::Float(f) => "Float("@ + float_text(f) + ")"@,
        TomlValueV::Boolean(b) => if b {
            "Boolean(true)"@
        } else {
            "Boolean(false)"@
        },
        TomlValueV::DateTime(s) => "DateTime("@ + quoted(s) + ")"@,
        TomlValueV::Array(a) => "Array(["@ + join(debug_items(a), ", "@) + "])"@,
        TomlValueV::Table(t) => "Table({"@ + join(debug_entries(t), ", "@) + "})"@,
    }
}

/// The `Debug` forms of the elements of an array.
pub open spec fn debug_items(a: Seq<TomlValueV>) -> Seq<Seq<char>>
    decreases a, 0int,
{
    Seq::new(
        a.len(),
        |i: int|
            if 0 <= i < a.len() {
                value_debug(a[i])
            } else {
                seq![]
            },
    )
}

/// The entries of a table in the form of Rust's `Debug` for maps: `"key": value`.
pub open spec fn debug_entries(t: TableV) -> Seq<Seq<char>>
    decreases t, 0int,
{
    Seq::new(
        t.len(),
        |i: int|
            if 0 <= i < t.len() {
                quoted(t[i].0) + ": "@ + value_debug(t[i].1)
            } else {
                seq![]
            },
    )
}

/// How a value is shown to a reader: strings in double quotes, the elements of
/// an array in their `Debug` form, and the entries of a table as `key: value`.
pub open spec fn value_display(v: TomlValueV) -> Seq<char>
    decreases v, 1int,
{
    match v {
        TomlValueV::String(s) => "\""@ + s + "\""@,
        TomlValueV::Integer(n) => int_text(n as int),
        TomlValueV::Float(f) => float_text(f),
        TomlValueV::Boolean(b) => if b {
            "true"@
        } else {
            "false"@
        },
        TomlValueV::DateTime(s) => s,
        TomlValueV::Array(a) => "["@ + join(debug_items(a), ", "@) + "]"@,
        TomlValueV::Table(t) => "{"@ + join(display_entries(t), ", "@) + "}"@,
    }
}

/// The entries of a table as `key: value`, each value shown by [`value_display`].
pub open spec fn display_entries(t: TableV) -> Seq<Seq<char>>
    decreases t, 0int,
{
    Seq::new(
        t.len(),
        |i: int|
            if 0 <= i < t.len() {
                t[i].0 + ": "@ + value_display(t[i].1)
            } else {
                seq![]
            },
    )
}

proof fn lemma_join_push(parts: Seq<Seq<char>>, sep: Seq<char>, p: Seq<char>)
    ensures
        join(parts.push(p), sep) == if parts.len() == 0 {
            p
        } else {
            join(parts, sep) + sep + p
        },
{
    assert(parts.push(p).drop_last() =~= parts);
}

/// Appends the `Debug` form of `v`.
fn push_debug(s: &mut String, v: &TomlValue)
    ensures
        final(s)@ == old(s)@ + value_debug(v@),
    decreases v,
{
    match v {
        TomlValue::String(t) => {
            s.append("String(");
            push_quoted(s, t.as_str());
            s.append(")");
            proof {
                assert(s@ =~= old(s)@ + value_debug(v@));
            }
        },
        TomlValue::Integer(n) => {
            s.append("Integer(");
            push_int_text(s, *n);
            s.append(")");
            proof {
                assert(s@ =~= old(s)@ + value_debug(v@));
            }
        },
        TomlValue::Float(f) => {
            s.append("Float(");
            let t = f.text();
            s.append(t.as_str());
            s.append(")");
            proof {
                assert(s@ =~= old(s)@ + value_debug(v@));
            }
        },
        TomlValue::Boolean(b) => {
            if *b {
                s.append("Boolean(true)");
            } else {
                s.append("Boolean(false)");
            }
        },
        TomlValue::DateTime(t) => {
            s.append("DateTime(");
            push_quoted(s, t.as_str());
            s.append(")");
            proof {
                assert(s@ =~= old(s)@ + value_debug(v@));
            }
        },
        TomlValue::Array(a) => {
            proof {
                lemma_array_view(*a);
            }
            let ghost av = values_view(a@);
            let ghost parts = debug_items(av);
            s.append("Array([");
            let ghost s0 = s@;
            let mut i: usize = 0;
            proof {
                assert(parts.take(0) =~= Seq::<Seq<char>>::empty());
            }
            while i < a.len()
                invariant
                    av == values_view(a@),
                    *v == TomlValue::Array(*a),
                    i <= a.len(),
                    s@ == s0 + join(parts.take(i as int), ", "@),
                    parts.len() == a.len(),
                    forall|k: int| 0 <= k < a.len() ==> parts[k] == value_debug(av[k]),
                decreases a.len() - i,
            {
                proof {
                    lemma_join_push(parts.take(i as int), ", "@, parts[i as int]);
                    assert(parts.take(i + 1) =~= parts.take(i as int).push(parts[i as int]));
                }
                if i > 0 {
                    s.append(", ");
                }
                proof {
                    assert(decreases_to!(*v => (*v)->Array_0));
                    assert(decreases_to!((*v)->Array_0 => ((*v)->Array_0)@));
                    assert(decreases_to!(((*v)->Array_0)@ => ((*v)->Array_0)@[i as int]));
                    assert(decreases_to!(*v => a@[i as int]));
                }
                push_debug(s, &a[i]);
                i = i + 1;
            }
            s.append("])");
            proof {
                assert(parts.take(a.len() as int) =~= parts);
                assert(s@ =~= old(s)@ + value_debug(v@));
            }
        },
        TomlValue::Table(t) => {
            proof {
                lemma_table_view(*t);
            }
            let ghost tv = entries_view(t@);
            let ghost parts = debug_entries(tv);
            s.append("Table({");
            let ghost s0 = s@;
            let mut i: usize = 0;
            proof {
                assert(parts.take(0) =~= Seq::<Seq<char>>::empty());
            }
            while i < t.len()
                invariant
                    tv == entries_view(t@),
                    *v == TomlValue::Table(*t),
                    i <= t.len(),
                    s@ == s0 + join(parts.take(i as int), ", "@),
                    parts.len() == t.len(),
                    forall|k: int|
                        0 <= k < t.len() ==> parts[k] == quoted(tv[k].0) + ": "@ + value_debug(
                            tv[k].1,
                        ),
                decreases t.len() - i,
            {
                proof {
                    lemma_join_push(parts.take(i as int), ", "@, parts[i as int]);
                    assert(parts.take(i + 1) =~= parts.take(i as int).push(parts[i as int]));
                }
                if i > 0 {
                    s.append(", ");
                }
                push_quoted(s, t[i].0.as_str());
                s.append(": ");
                proof {
                    assert(decreases_to!(*v => (*v)->Table_0));
                    assert(decreases_to!((*v)->Table_0 => ((*v)->Table_0)@));
                    assert(decreases_to!(((*v)->Table_0)@ => ((*v)->Table_0)@[i as int]));
                    assert(decreases_to!(((*v)->Table_0)@[i as int] => ((*v)->Table_0)@[i as int].1));
                    assert(decreases_to!(*v => t@[i as int].1));
                }
                push_debug(s, &t[i].1);
                i = i + 1;
            }
            s.append("})");
            proof {
                assert(parts.take(t.len() as int) =~= parts);
                assert(s@ =~= old(s)@ + value_debug(v@));
            }
        },
    }
}

/// The `Debug` form of `v`.
pub fn debug_text(v: &TomlValue) -> (r: String)
    ensures
        r@ == value_debug(v@),
{
    let mut s = String::new();
    push_debug(&mut s, v);
    proof {
        assert(s@ =~= value_debug(v@));
    }
    s
}

/// Appends [`value_display`] of `v`.
fn push_display(s: &mut String, v: &TomlValue)
    ensures
        final(s)@ == old(s)@ + value_display(v@),
    decreases v,
{
    match v {
        TomlValue::String(t) => {
            s.append("\"");
            s.append(t.as_str());
            s.append("\"");
            proof {
                assert(s@ =~= old(s)@ + value_display(v@));
            }
        },
        TomlValue::Integer(n) => {
            push_int_text(s, *n);
            proof {
                assert(s@ =~= old(s)@ + value_display(v@));
            }
        },
        TomlValue::Float(f) => {
            let t = f.text();
            s.append(t.as_str());
            proof {
                assert(s@ =~= old(s)@ + value_display(v@));
            }
        },
        TomlValue::Boolean(b) => {
            if *b {
                s.append("true");
            } else {
                s.append("false");
            }
        },
        TomlValue::DateTime(t) => {
            s.append(t.as_str());
            proof {
                assert(s@ =~= old(s)@ + value_display(v@));
            }
        },
        TomlValue::Array(a) => {
            proof {
                lemma_array_view(*a);
            }
            let ghost av = values_view(a@);
            let ghost parts = debug_items(av);
            s.append("[");
            let ghost s0 = s@;
            let mut i: usize = 0;
            proof {
                assert(parts.take(0) =~= Seq::<Seq<char>>::empty());
            }
            while i < a.len()
                invariant
                    av == values_view(a@),
                    i <= a.len(),
                    s@ == s0 + join(parts.take(i as int), ", "@),
                    parts.len() == a.len(),
                    forall|k: int| 0 <= k < a.len() ==> parts[k] == value_debug(av[k]),
                decreases a.len() - i,
            {
                proof {
                    lemma_join_push(parts.take(i as int), ", "@, parts[i as int]);
                    assert(parts.take(i + 1) =~= parts.take(i as int).push(parts[i as int]));
                }
                if i > 0 {
                    s.append(", ");
                }
                push_debug(s, &a[i]);
                i = i + 1;
            }
            s.append("]");
            proof {
                assert(parts.take(a.len() as int) =~= parts);
                assert(s@ =~= old(s)@ + value_display(v@));
            }
        },
        TomlValue::Table(t) => {
            proof {
                lemma_table_view(*t);
            }
            let ghost tv = entries_view(t@);
            let ghost parts = display_entries(tv);
            s.append("{");
            let ghost s0 = s@;
            let mut i: usize = 0;
            proof {
                assert(parts.take(0) =~= Seq::<Seq<char>>::empty());
            }
            while i < t.len()
                invariant
                    tv == entries_view(t@),
                    *v == TomlValue::Table(*t),
                    i <= t.len(),
                    s@ == s0 + join(parts.take(i as int), ", "@),
                    parts.len() == t.len(),
                    forall|k: int|
                        0 <= k < t.len() ==> parts[k] == tv[k].0 + ": "@ + value_display(tv[k].1),
                decreases t.len() - i,
            {
                proof {
                    lemma_join_push(parts.take(i as int), ", "@, parts[i as int]);
                    assert(parts.take(i + 1) =~= parts.take(i as int).push(parts[i as int]));
                }
                if i > 0 {
                    s.append(", ");
                }
                s.append(t[i].0.as_str());
                s.append(": ");
                proof {
                    assert(decreases_to!(*v => (*v)->Table_0));
                    assert(decreases_to!((*v)->Table_0 => ((*v)->Table_0)@));
                    assert(decreases_to!(((*v)->Table_0)@ => ((*v)->Table_0)@[i as int]));
                    assert(decreases_to!(((*v)->Table_0)@[i as int] => ((*v)->Table_0)@[i as int].1));
                }
                push_display(s, &t[i].1);
                i = i + 1;
            }
            s.append("}");
            proof {
                assert(parts.take(t.len() as int) =~= parts);
                assert(s@ =~= old(s)@ + value_display(v@));
            }
        },
    }
}

/// How a value is shown to a reader: see [`value_display`].
pub fn display(value: &TomlValue) -> (r: String)
    ensures
        r@ == value_display(value@),
{
    let mut s = String::new();
    push_display(&mut s, value);
    proof {
        assert(s@ =~= value_display(value@));
    }
    s
}

impl TomlValue {
    /// A copy of the value.
    pub fn copy(&self) -> (r: TomlValue)
        ensures
            r@ == self@,
        decreases self,
    {
        match self {
            TomlValue::String(t) => TomlValue::String(t.clone()),
            TomlValue::Integer(n) => TomlValue::Integer(*n),
            TomlValue::Float(f) => TomlValue::Float(f.copy()),
            TomlValue::Boolean(b) => TomlValue::Boolean(*b),
            TomlValue::DateTime(t) => TomlValue::DateTime(t.clone()),
            TomlValue::Array(a) => {
                let mut out: Vec<TomlValue> = Vec::new();
                let mut i: usize = 0;
                while i < a.len()
                    invariant
                        *self == TomlValue::Array(*a),
                        i <= a.len(),
                        out.len() == i,
                        forall|k: int| 0 <= k < i ==> out@[k]@ == a@[k]@,
                    decreases a.len() - i,
                {
                    proof {
                        assert(decreases_to!(*self => (*self)->Array_0));
                        assert(decreases_to!((*self)->Array_0 => ((*self)->Array_0)@));
                        assert(decreases_to!(((*self)->Array_0)@ => ((*self)->Array_0)@[i as int]));
                    }
                    let c = a[i].copy();
                    out.push(c);
                    i = i + 1;
                }
                proof {
                    lemma_array_view(*a);
                    lemma_array_view(out);
                    assert(values_view(out@) =~= values_view(a@));
                }
                TomlValue::Array(out)
            },
            TomlValue::Table(t) => {
                let mut out: Vec<(String, TomlValue)> = Vec::new();
                let mut i: usize = 0;
                while i < t.len()
                    invariant
                        *self == TomlValue::Table(*t),
                        i <= t.len(),
                        out.len() == i,
                        forall|k: int| 0 <= k < i ==> out@[k].0@ == t@[k].0@ && out@[k].1@ == t@[k].1@,
                    decreases t.len() - i,
                {
                    proof {
                        assert(decreases_to!(*self => (*self)->Table_0));
                        assert(decreases_to!((*self)->Table_0 => ((*self)->Table_0)@));
                        assert(decreases_to!(((*self)->Table_0)@ => ((*self)->Table_0)@[i as int]));
                        assert(decreases_to!(((*self)->Table_0)@[i as int] => ((*self)->Table_0)@[i as int].1));
                    }
                    let c = t[i].1.copy();
                    out.push((t[i].0.clone(), c));
                    i = i + 1;
                }
                proof {
                    lemma_table_view(*t);
                    lemma_table_view(out);
                    assert(entries_view(out@) =~= entries_view(t@));
                }
                TomlValue::Table(out)
            },
        }
    }
}
} // verus!
