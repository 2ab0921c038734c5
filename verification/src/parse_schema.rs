//! Reading a schema out of a parsed schema document.
//!
//! A schema document is a table. Each entry whose value is a table with a `type`
//! key describes a field; each entry whose value is a table without one describes
//! a nested table of fields; other entries are ignored.
use vstd::prelude::*;
use crate::config_error::{ConfigError, ConfigErrorV};
use crate::field::{FieldSchema, FieldSchemaV, FieldType, FieldTypeV, Schema, SchemaV, field_type_of, lemma_schema_view, opt_float_view, opt_text_view, schema_view};
use crate::token::{FloatValue, FloatValueV};
use crate::toml_value::{keys_unique, lemma_set_then_get, TableV, TomlValue, TomlValueV, entries_view, key_index, lemma_array_view, lemma_key_index, lemma_table_view, table_find, table_get, table_set, values_view};

verus! {

/// The error that every malformed field attribute gives.
pub open spec fn attribute_error() -> ConfigErrorV {
    ConfigErrorV::ExpectedToken { line: 0, col: 0, expected: "boolean"@, found: "non boolean"@ }
}

/// The schema of a field of type `t` before any of its attributes is read.
pub open spec fn base_schema(t: FieldTypeV) -> FieldSchemaV {
    FieldSchemaV { field_type: t, required: false, default: None, allowed_values: None, description: None }
}

/// Whether `v` may be the default of a field of type `t`.
pub open spec fn default_fits(t: FieldTypeV, v: TomlValueV) -> bool {
    match (t, v) {
        (FieldTypeV::Integer { .. }, TomlValueV::Integer(_)) => true,
        (FieldTypeV::Float { .. }, TomlValueV::Float(_)) => true,
        (FieldTypeV::String { .. }, TomlValueV::String(_)) => true,
        (FieldTypeV::Boolean, TomlValueV::Boolean(_)) => true,
        _ => false,
    }
}

/// The attributes that only some types take: `min` and `max` for numbers,
/// `minlen`, `maxlen` and `pattern` for strings.
pub open spec fn apply_bound(t: FieldTypeV, key: Seq<char>, value: TomlValueV) -> Option<FieldTypeV> {
    match t {
        FieldTypeV::Integer { min, max } => if key == "min"@ {
            match value {
                TomlValueV::Integer(n) => Some(FieldTypeV::Integer { min: Some(n), max }),
                _ => None,
            }
        } else if key == "max"@ {
            match value {
                TomlValueV::Integer(n) => Some(FieldTypeV::Integer { min, max: Some(n) }),
                _ => None,
            }
        } else {
            None
        },
        FieldTypeV::Float { min, max } => if key == "min"@ {
            match value {
                TomlValueV::Float(f) => Some(FieldTypeV::Float { min: Some(f), max }),
                _ => None,
            }
        } else if key == "max"@ {
            match value {
                TomlValueV::Float(f) => Some(FieldTypeV::Float { min, max: Some(f) }),
                _ => None,
            }
        } else {
            None
        },
        FieldTypeV::String { min, max, pattern } => if key == "maxlen"@ {
            match value {
                TomlValueV::Integer(n) => Some(
                    FieldTypeV::String { min, max: Some((n as usize) as nat), pattern },
                ),
                _ => None,
            }
        } else if key == "minlen"@ {
            match value {
                TomlValueV::Integer(n) => Some(
                    FieldTypeV::String { min: Some((n as usize) as nat), max, pattern },
                ),
                _ => None,
            }
        } else if key == "pattern"@ {
            match value {
                TomlValueV::String(p) => Some(FieldTypeV::String { min, max, pattern: Some(p) }),
                _ => None,
            }
        } else {
            None
        },
        _ => None,
    }
}

/// `acc` with the attribute `key = value` read into it, or nothing when the
/// attribute is unknown or its value is of the wrong type.
pub open spec fn apply_attribute(acc: FieldSchemaV, key: Seq<char>, value: TomlValueV) -> Option<
    FieldSchemaV,
> {
    if key == "type"@ {
        Some(acc)
    } else if key == "required"@ {
        match value {
            TomlValueV::Boolean(b) => Some(FieldSchemaV { required: b, ..acc }),
            _ => None,
        }
    } else if key == "default"@ {
        if default_fits(acc.field_type, value) {
            Some(FieldSchemaV { default: Some(value), ..acc })
        } else {
            None
        }
    } else if key == "description"@ {
        match value {
            TomlValueV::String(s) => Some(FieldSchemaV { description: Some(s), ..acc }),
            _ => None,
        }
    } else if key == "allowedvalues"@ {
        match value {
            TomlValueV::Array(a) => Some(FieldSchemaV { allowed_values: Some(a), ..acc }),
            _ => None,
        }
    } else {
        match apply_bound(acc.field_type, key, value) {
            Some(t) => Some(FieldSchemaV { field_type: t, ..acc }),
            None => None,
        }
    }
}

/// `acc` with the attributes `entries[i..]` read into it, in order.
pub open spec fn apply_attributes(acc: FieldSchemaV, entries: TableV, i: int) -> Option<FieldSchemaV>
    decreases entries.len() - i,
{
    if i < 0 || i >= entries.len() {
        Some(acc)
    } else {
        match apply_attribute(acc, entries[i].0, entries[i].1) {
            Some(a) => apply_attributes(a, entries, i + 1),
            None => None,
        }
    }
}

/// The schema of a field of type `t` whose attributes are `entries`.
pub open spec fn field_schema_of(t: FieldTypeV, entries: TableV) -> Result<FieldSchemaV, ConfigErrorV> {
    match apply_attributes(base_schema(t), entries, 0) {
        Some(f) => Ok(f),
        None => Err(attribute_error()),
    }
}

/// The schema of a nested table of fields.
pub open spec fn table_field(nested: SchemaV) -> FieldSchemaV {
    FieldSchemaV {
        field_type: FieldTypeV::Table(nested),
        required: true,
        default: None,
        allowed_values: None,
        description: None,
    }
}

/// The schema read from `table[i..]`, added to `acc`.
pub open spec fn schema_from(table: TableV, i: int, acc: SchemaV) -> Result<SchemaV, ConfigErrorV>
    decreases table, table.len() - i,
{
    if i < 0 || i >= table.len() {
        Ok(acc)
    } else {
        let key = table[i].0;
        match table[i].1 {
            TomlValueV::Table(inner) => match table_get(inner, "type"@) {
                None => match schema_from(inner, 0, seq![]) {
                    Err(e) => Err(e),
                    Ok(nested) => schema_from(table, i + 1, table_set(acc, key, table_field(nested))),
                },
                Some(TomlValueV::String(ts)) => match field_type_of(ts) {
                    Some(FieldTypeV::Array(_)) => schema_from(table, i + 1, acc),
                    Some(FieldTypeV::Table(_)) => schema_from(table, i + 1, acc),
                    Some(t) => match field_schema_of(t, inner) {
                        Err(e) => Err(e),
                        Ok(f) => schema_from(table, i + 1, table_set(acc, key, f)),
                    },
                    None => Err(
                        ConfigErrorV::SchemaViolation {
                            line: 0,
                            key,
                            expected: "valid type (e.g., string,integer,array[...])"@,
                            found: ts,
                        },
                    ),
                },
                Some(_) => Err(
                    ConfigErrorV::SchemaViolation {
                        line: 0,
                        key,
                        expected: "a string value for  'type'"@,
                        found: "missing or invalid type"@,
                    },
                ),
            },
            _ => schema_from(table, i + 1, acc),
        }
    }
}

/// The schema that a schema document's table describes.
pub open spec fn schema_of(table: TableV) -> Result<SchemaV, ConfigErrorV> {
    schema_from(table, 0, seq![])
}

// ---------------------------------------------------------------- no field twice

/// Whether no schema within `s`, `s` included, holds a key twice.
pub open spec fn schema_well_keyed(s: SchemaV) -> bool
    decreases s, s.len() + 1,
{
    keys_unique(s) && fields_well_keyed(s, s.len() as int)
}

/// Whether the nested schemas among the first `n` fields of `s` are well keyed.
pub open spec fn fields_well_keyed(s: SchemaV, n: int) -> bool
    decreases s, n,
{
    if n <= 0 || n > s.len() {
        n <= 0
    } else {
        (match s[n - 1].1.field_type {
            FieldTypeV::Table(inner) => schema_well_keyed(inner),
            _ => true,
        }) && fields_well_keyed(s, n - 1)
    }
}

/// The nested schema of a field, if the field is a table of fields.
pub open spec fn nested_of(f: FieldSchemaV) -> Option<SchemaV> {
    match f.field_type {
        FieldTypeV::Table(inner) => Some(inner),
        _ => None,
    }
}

proof fn lemma_fields_well_keyed(s: SchemaV, n: int)
    requires
        0 <= n <= s.len(),
    ensures
        fields_well_keyed(s, n) <==> forall|i: int|
            0 <= i < n ==> (#[trigger] nested_of(s[i].1) matches Some(inner) ==> schema_well_keyed(
                inner,
            )),
    decreases n,
{
    if n > 0 {
        lemma_fields_well_keyed(s, n - 1);
        let last_ok = match s[n - 1].1.field_type {
            FieldTypeV::Table(inner) => schema_well_keyed(inner),
            _ => true,
        };
        assert(fields_well_keyed(s, n) == (last_ok && fields_well_keyed(s, n - 1)));
        assert(last_ok <==> (nested_of(s[n - 1].1) matches Some(inner) ==> schema_well_keyed(inner)));
    } else {
        assert(fields_well_keyed(s, n));
    }
}

proof fn lemma_schema_set_well_keyed(s: SchemaV, k: Seq<char>, f: FieldSchemaV)
    requires
        schema_well_keyed(s),
        nested_of(f) matches Some(inner) ==> schema_well_keyed(inner),
    ensures
        schema_well_keyed(table_set(s, k, f)),
{
    lemma_set_then_get(s, k, f, k);
    lemma_key_index(s, k);
    lemma_fields_well_keyed(s, s.len() as int);
    let r = table_set(s, k, f);
    lemma_fields_well_keyed(r, r.len() as int);
    assert forall|i: int| 0 <= i < r.len() implies (#[trigger] nested_of(r[i].1) matches Some(inner)
        ==> schema_well_keyed(inner)) by {
        if key_index(s, k) >= 0 {
            if i != key_index(s, k) {
                assert(r[i] == s[i]);
            }
        } else {
            if i < s.len() {
                assert(r[i] == s[i]);
            }
        }
    }
}

proof fn lemma_attributes_keep_kind(acc: FieldSchemaV, entries: TableV, i: int)
    requires
        nested_of(acc) is None,
    ensures
        apply_attributes(acc, entries, i) matches Some(f) ==> nested_of(f) is None,
    decreases entries.len() - i,
{
    if 0 <= i < entries.len() {
        match apply_attribute(acc, entries[i].0, entries[i].1) {
            Some(a) => {
                lemma_attributes_keep_kind(a, entries, i + 1);
            },
            None => {},
        }
    }
}

proof fn lemma_schema_from_well_keyed(table: TableV, i: int, acc: SchemaV)
    requires
        schema_well_keyed(acc),
    ensures
        schema_from(table, i, acc) matches Ok(s) ==> schema_well_keyed(s),
    decreases table, table.len() - i,
{
    if 0 <= i < table.len() {
        let key = table[i].0;
        match table[i].1 {
            TomlValueV::Table(inner) => {
                match table_get(inner, "type"@) {
                    None => {
                        assert(schema_well_keyed(Seq::<(Seq<char>, FieldSchemaV)>::empty()));
                        assert(decreases_to!(table => table[i]));
                        assert(decreases_to!(table[i] => table[i].1));
                        assert(decreases_to!(table[i].1 => inner));
                        lemma_schema_from_well_keyed(inner, 0, seq![]);
                        match schema_from(inner, 0, seq![]) {
                            Ok(nested) => {
                                lemma_schema_set_well_keyed(acc, key, table_field(nested));
                                lemma_schema_from_well_keyed(
                                    table,
                                    i + 1,
                                    table_set(acc, key, table_field(nested)),
                                );
                            },
                            Err(_) => {},
                        }
                    },
                    Some(TomlValueV::String(ts)) => {
                        match field_type_of(ts) {
                            Some(FieldTypeV::Array(_)) => {
                                lemma_schema_from_well_keyed(table, i + 1, acc);
                            },
                            Some(FieldTypeV::Table(_)) => {
                                lemma_schema_from_well_keyed(table, i + 1, acc);
                            },
                            Some(t) => {
                                lemma_attributes_keep_kind(base_schema(t), inner, 0);
                                match field_schema_of(t, inner) {
                                    Ok(f) => {
                                        lemma_schema_set_well_keyed(acc, key, f);
                                        lemma_schema_from_well_keyed(table, i + 1, table_set(acc, key, f));
                                    },
                                    Err(_) => {},
                                }
                            },
                            None => {},
                        }
                    },
                    Some(_) => {},
                }
            },
            _ => {
                lemma_schema_from_well_keyed(table, i + 1, acc);
            },
        }
    }
}

/// No key occurs twice in a schema read from a schema document, nor in any of its
/// nested schemas.
pub proof fn lemma_schema_well_keyed(table: TableV)
    ensures
        schema_of(table) matches Ok(s) ==> schema_well_keyed(s),
{
    assert(schema_well_keyed(Seq::<(Seq<char>, FieldSchemaV)>::empty()));
    lemma_schema_from_well_keyed(table, 0, seq![]);
}

// ---------------------------------------------------------------- attributes in any order

/// The types that a field's attributes start from: a type name with no bounds.
pub open spec fn is_base_type(t: FieldTypeV) -> bool {
    t == FieldTypeV::Integer { min: None, max: None } || t == FieldTypeV::Float { min: None, max: None }
        || t == FieldTypeV::String { min: None, max: None, pattern: None } || t == FieldTypeV::Boolean
}

/// Whether the attribute `key = value` is one that a field of type `t` takes,
/// with a value of the right kind.
pub open spec fn attribute_ok(t: FieldTypeV, key: Seq<char>, value: TomlValueV) -> bool {
    apply_attribute(base_schema(t), key, value) is Some
}

pub open spec fn int_attr(v: Option<TomlValueV>) -> Option<i64> {
    match v {
        Some(TomlValueV::Integer(n)) => Some(n),
        _ => None,
    }
}

pub open spec fn float_attr(v: Option<TomlValueV>) -> Option<FloatValueV> {
    match v {
        Some(TomlValueV::Float(f)) => Some(f),
        _ => None,
    }
}

pub open spec fn size_attr(v: Option<TomlValueV>) -> Option<nat> {
    match v {
        Some(TomlValueV::Integer(n)) => Some((n as usize) as nat),
        _ => None,
    }
}

pub open spec fn text_attr(v: Option<TomlValueV>) -> Option<Seq<char>> {
    match v {
        Some(TomlValueV::String(s)) => Some(s),
        _ => None,
    }
}

/// The schema of a field of type `t` whose attributes are `entries`, each read
/// by its key.
pub open spec fn schema_by_key(t: FieldTypeV, entries: TableV) -> FieldSchemaV {
    FieldSchemaV {
        field_type: match t {
            FieldTypeV::Integer { .. } => FieldTypeV::Integer {
                min: int_attr(table_get(entries, "min"@)),
                max: int_attr(table_get(entries, "max"@)),
            },
            FieldTypeV::Float { .. } => FieldTypeV::Float {
                min: float_attr(table_get(entries, "min"@)),
                max: float_attr(table_get(entries, "max"@)),
            },
            FieldTypeV::String { .. } => FieldTypeV::String {
                min: size_attr(table_get(entries, "minlen"@)),
                max: size_attr(table_get(entries, "maxlen"@)),
                pattern: text_attr(table_get(entries, "pattern"@)),
            },
            other => other,
        },
        required: match table_get(entries, "required"@) {
            Some(TomlValueV::Boolean(b)) => b,
            _ => false,
        },
        default: table_get(entries, "default"@),
        allowed_values: match table_get(entries, "allowedvalues"@) {
            Some(TomlValueV::Array(a)) => Some(a),
            _ => None,
        },
        description: text_attr(table_get(entries, "description"@)),
    }
}

proof fn lemma_get_push_new<V>(t: Seq<(Seq<char>, V)>, k: Seq<char>, v: V, q: Seq<char>)
    requires
        forall|i: int| 0 <= i < t.len() ==> t[i].0 != k,
    ensures
        table_get(t.push((k, v)), q) == if q == k {
            Some(v)
        } else {
            table_get(t, q)
        },
{
    lemma_key_index(t, q);
    lemma_key_index(t.push((k, v)), q);
    if q == k {
        assert(t.push((k, v))[t.len() as int].0 == k);
    } else {
        if key_index(t, q) >= 0 {
            assert(t.push((k, v))[key_index(t, q)].0 == q);
        }
        if key_index(t.push((k, v)), q) >= 0 {
            assert(key_index(t.push((k, v)), q) < t.len());
            assert(t[key_index(t.push((k, v)), q)].0 == q);
        }
    }
}

proof fn lemma_attribute_names()
    ensures
        "type"@.len() == 4,
        "required"@.len() == 8,
        "default"@.len() == 7,
        "description"@.len() == 11,
        "allowedvalues"@.len() == 13,
        "min"@.len() == 3,
        "max"@.len() == 3,
        "minlen"@.len() == 6,
        "maxlen"@.len() == 6,
        "pattern"@.len() == 7,
        "min"@[1] == 'i' && "max"@[1] == 'a',
        "minlen"@[1] == 'i' && "maxlen"@[1] == 'a',
        "default"@[0] == 'd' && "pattern"@[0] == 'p',
{
    reveal_strlit("type");
    reveal_strlit("required");
    reveal_strlit("default");
    reveal_strlit("description");
    reveal_strlit("allowedvalues");
    reveal_strlit("min");
    reveal_strlit("max");
    reveal_strlit("minlen");
    reveal_strlit("maxlen");
    reveal_strlit("pattern");
}

proof fn lemma_attribute_step(t: FieldTypeV, e: TableV, n: int)
    requires
        is_base_type(t),
        keys_unique(e),
        0 <= n < e.len(),
    ensures
        apply_attribute(schema_by_key(t, e.take(n)), e[n].0, e[n].1) == if attribute_ok(
            t,
            e[n].0,
            e[n].1,
        ) {
            Some(schema_by_key(t, e.take(n + 1)))
        } else {
            None::<FieldSchemaV>
        },
{
    lemma_attribute_names();
    let k = e[n].0;
    let v = e[n].1;
    assert(e.take(n + 1) =~= e.take(n).push((k, v)));
    assert forall|i: int| 0 <= i < e.take(n).len() implies e.take(n)[i].0 != k by {
        assert(e.take(n)[i] == e[i]);
    }
    let p0 = e.take(n);
    lemma_get_push_new(p0, k, v, "required"@);
    lemma_get_push_new(p0, k, v, "default"@);
    lemma_get_push_new(p0, k, v, "description"@);
    lemma_get_push_new(p0, k, v, "allowedvalues"@);
    lemma_get_push_new(p0, k, v, "min"@);
    lemma_get_push_new(p0, k, v, "max"@);
    lemma_get_push_new(p0, k, v, "minlen"@);
    lemma_get_push_new(p0, k, v, "maxlen"@);
    lemma_get_push_new(p0, k, v, "pattern"@);
    let acc = schema_by_key(t, p0);
    let next = schema_by_key(t, e.take(n + 1));
    if k == "type"@ {
        assert(next == acc);
    } else if k == "required"@ {
    } else if k == "default"@ {
    } else if k == "description"@ {
    } else if k == "allowedvalues"@ {
    } else {
        match t {
            FieldTypeV::Integer { .. } => {
                if k == "min"@ {
                } else if k == "max"@ {
                } else {
                    assert(next == acc);
                }
            },
            FieldTypeV::Float { .. } => {
                if k == "min"@ {
                } else if k == "max"@ {
                } else {
                    assert(next == acc);
                }
            },
            FieldTypeV::String { .. } => {
                if k == "maxlen"@ {
                } else if k == "minlen"@ {
                } else if k == "pattern"@ {
                } else {
                    assert(next == acc);
                }
            },
            _ => {
                assert(next == acc);
            },
        }
    }
}

proof fn lemma_attributes_by_key(t: FieldTypeV, e: TableV, n: int)
    requires
        is_base_type(t),
        keys_unique(e),
        0 <= n <= e.len(),
    ensures
        apply_attributes(schema_by_key(t, e.take(n)), e, n) == if forall|i: int|
            n <= i < e.len() ==> #[trigger] attribute_ok(t, e[i].0, e[i].1) {
            Some(schema_by_key(t, e))
        } else {
            None::<FieldSchemaV>
        },
    decreases e.len() - n,
{
    if n == e.len() {
        assert(e.take(n) =~= e);
    } else {
        lemma_attribute_step(t, e, n);
        lemma_attributes_by_key(t, e, n + 1);
        if !attribute_ok(t, e[n].0, e[n].1) {
            assert(!(forall|i: int| n <= i < e.len() ==> #[trigger] attribute_ok(t, e[i].0, e[i].1)));
        }
    }
}

/// The schema of a field read from attributes with distinct keys, stated without
/// their order: an error when one attribute is unknown or of the wrong kind,
/// otherwise each setting taken from the attribute of its key.
pub proof fn lemma_field_schema_by_key(t: FieldTypeV, e: TableV)
    requires
        is_base_type(t),
        keys_unique(e),
    ensures
        field_schema_of(t, e) == if forall|i: int|
            0 <= i < e.len() ==> #[trigger] attribute_ok(t, e[i].0, e[i].1) {
            Ok::<FieldSchemaV, ConfigErrorV>(schema_by_key(t, e))
        } else {
            Err::<FieldSchemaV, ConfigErrorV>(attribute_error())
        },
{
    assert(e.take(0) =~= Seq::<(Seq<char>, TomlValueV)>::empty());
    assert(schema_by_key(t, e.take(0)) == base_schema(t));
    lemma_attributes_by_key(t, e, 0);
}

proof fn lemma_same_entries_get<V>(e1: Seq<(Seq<char>, V)>, e2: Seq<(Seq<char>, V)>, k: Seq<char>)
    requires
        keys_unique(e1),
        keys_unique(e2),
        forall|i: int| 0 <= i < e1.len() ==> e2.contains(#[trigger] e1[i]),
        forall|j: int| 0 <= j < e2.len() ==> e1.contains(#[trigger] e2[j]),
    ensures
        table_get(e1, k) == table_get(e2, k),
{
    lemma_key_index(e1, k);
    lemma_key_index(e2, k);
    if key_index(e1, k) >= 0 {
        let x = e1[key_index(e1, k)];
        assert(e2.contains(x));
        let j = choose|j: int| 0 <= j < e2.len() && e2[j] == x;
        if key_index(e2, k) != j {
            assert(e2[key_index(e2, k)].0 == k);
        }
    } else if key_index(e2, k) >= 0 {
        let y = e2[key_index(e2, k)];
        assert(e1.contains(y));
        let i = choose|i: int| 0 <= i < e1.len() && e1[i] == y;
        assert(e1[i].0 == k);
    }
}

/// The attributes of a field may come in any order: two tables of attributes that
/// hold the same entries, each key once, give the same schema or the same error.
pub proof fn lemma_attributes_any_order(t: FieldTypeV, e1: TableV, e2: TableV)
    requires
        is_base_type(t),
        keys_unique(e1),
        keys_unique(e2),
        forall|i: int| 0 <= i < e1.len() ==> e2.contains(#[trigger] e1[i]),
        forall|j: int| 0 <= j < e2.len() ==> e1.contains(#[trigger] e2[j]),
    ensures
        field_schema_of(t, e1) == field_schema_of(t, e2),
{
    lemma_field_schema_by_key(t, e1);
    lemma_field_schema_by_key(t, e2);
    assert forall|k: Seq<char>| #[trigger] table_get(e1, k) == table_get(e2, k) by {
        lemma_same_entries_get(e1, e2, k);
    }
    assert(schema_by_key(t, e1) == schema_by_key(t, e2));
    assert((forall|i: int| 0 <= i < e1.len() ==> #[trigger] attribute_ok(t, e1[i].0, e1[i].1))
        <==> (forall|j: int| 0 <= j < e2.len() ==> #[trigger] attribute_ok(t, e2[j].0, e2[j].1))) by {
        if forall|i: int| 0 <= i < e1.len() ==> #[trigger] attribute_ok(t, e1[i].0, e1[i].1) {
            assert forall|j: int| 0 <= j < e2.len() implies #[trigger] attribute_ok(t, e2[j].0, e2[j].1) by {
                assert(e1.contains(e2[j]));
                let i = choose|i: int| 0 <= i < e1.len() && e1[i] == e2[j];
                assert(attribute_ok(t, e1[i].0, e1[i].1));
            }
        }
        if forall|j: int| 0 <= j < e2.len() ==> #[trigger] attribute_ok(t, e2[j].0, e2[j].1) {
            assert forall|i: int| 0 <= i < e1.len() implies #[trigger] attribute_ok(t, e1[i].0, e1[i].1) by {
                assert(e2.contains(e1[i]));
                let j = choose|j: int| 0 <= j < e2.len() && e2[j] == e1[i];
                assert(attribute_ok(t, e2[j].0, e2[j].1));
            }
        }
    }
}

// ---------------------------------------------------------------- reading attributes

pub(crate) fn attribute_err() -> (r: ConfigError)
    ensures
        r@ == attribute_error(),
{
    ConfigError::ExpectedToken {
        line: 0,
        col: 0,
        expected: String::from_str("boolean"),
        found: String::from_str("non boolean"),
    }
}

/// Whether `key` holds exactly the characters of `lit`.
fn key_is(key: &String, lit: &str) -> (r: bool)
    ensures
        r == (key@ == lit@),
{
    let k = key.as_str();
    let n = lit.unicode_len();
    if k.unicode_len() != n {
        return false;
    }
    let mut i: usize = 0;
    while i < n
        invariant
            n == lit@.len(),
            n == k@.len(),
            k@ == key@,
            i <= n,
            forall|j: int| 0 <= j < i ==> k@[j] == lit@[j],
        decreases n - i,
    {
        if k.get_char(i) != lit.get_char(i) {
            return false;
        }
        i = i + 1;
    }
    proof {
        assert(k@ =~= lit@);
    }
    true
}

/// The value of a `required` attribute.
fn parse_required(value: &TomlValue) -> (r: Result<bool, ConfigError>)
    ensures
        match value@ {
            TomlValueV::Boolean(b) => r == Ok::<bool, ConfigError>(b),
            _ => r matches Err(e) && e@ == attribute_error(),
        },
{
    match value {
        TomlValue::Boolean(b) => Ok(*b),
        _ => Err(attribute_err()),
    }
}

/// The value of a `min` or `max` attribute of an integer field.
fn parse_min_max_integer(value: &TomlValue) -> (r: Result<Option<i64>, ConfigError>)
    ensures
        match value@ {
            TomlValueV::Integer(n) => r == Ok::<Option<i64>, ConfigError>(Some(n)),
            _ => r matches Err(e) && e@ == attribute_error(),
        },
{
    match value {
        TomlValue::Integer(n) => Ok(Some(*n)),
        _ => Err(attribute_err()),
    }
}

/// The value of a `min` or `max` attribute of a float field.
fn parse_min_max_float(value: &TomlValue) -> (r: Result<Option<FloatValue>, ConfigError>)
    ensures
        match value@ {
            TomlValueV::Float(f) => r matches Ok(Some(x)) && x@ == f,
            _ => r matches Err(e) && e@ == attribute_error(),
        },
{
    match value {
        TomlValue::Float(f) => Ok(Some(f.copy())),
        _ => Err(attribute_err()),
    }
}

/// The value of a `minlen` or `maxlen` attribute: the integer taken as a `usize`,
/// as `as` converts it (a negative one wraps around).
fn parse_min_max_string(value: &TomlValue) -> (r: Result<Option<usize>, ConfigError>)
    ensures
        match value@ {
            TomlValueV::Integer(n) => r == Ok::<Option<usize>, ConfigError>(Some(n as usize)),
            _ => r matches Err(e) && e@ == attribute_error(),
        },
{
    match value {
        TomlValue::Integer(n) => Ok(Some(*n as usize)),
        _ => Err(attribute_err()),
    }
}

/// The value of a `description` or `pattern` attribute.
fn parse_description_string(value: &TomlValue) -> (r: Result<Option<String>, ConfigError>)
    ensures
        match value@ {
            TomlValueV::String(s) => r matches Ok(Some(x)) && x@ == s,
            _ => r matches Err(e) && e@ == attribute_error(),
        },
{
    match value {
        TomlValue::String(s) => Ok(Some(s.clone())),
        _ => Err(attribute_err()),
    }
}

/// The value of an `allowedvalues` attribute.
fn parse_allowed_values(value: &TomlValue) -> (r: Result<Option<Vec<TomlValue>>, ConfigError>)
    ensures
        match value@ {
            TomlValueV::Array(a) => r matches Ok(Some(x)) && values_view(x@) == a,
            _ => r matches Err(e) && e@ == attribute_error(),
        },
{
    match value {
        TomlValue::Array(_) => {
            let c = value.copy();
            match c {
                TomlValue::Array(a) => {
                    proof {
                        lemma_array_view(a);
                    }
                    Ok(Some(a))
                },
                _ => {
                    proof {
                        assert(false);
                    }
                    Err(attribute_err())
                },
            }
        },
        _ => Err(attribute_err()),
    }
}

fn copy_float(f: &Option<FloatValue>) -> (r: Option<FloatValue>)
    ensures
        opt_float_view(r) == opt_float_view(*f),
{
    match f {
        Some(x) => Some(x.copy()),
        None => None,
    }
}

fn copy_text(s: &Option<String>) -> (r: Option<String>)
    ensures
        opt_text_view(r) == opt_text_view(*s),
{
    match s {
        Some(x) => Some(x.clone()),
        None => None,
    }
}

/// The type `t` with the bound `key = value` read into it.
fn read_bound(t: &FieldType, key: &String, value: &TomlValue) -> (r: Result<FieldType, ConfigError>)
    ensures
        match apply_bound(t@, key@, value@) {
            Some(x) => r matches Ok(y) && y@ == x,
            None => r matches Err(e) && e@ == attribute_error(),
        },
{
    match t {
        FieldType::Integer { min, max } => {
            if key_is(key, "min") {
                let n = parse_min_max_integer(value)?;
                Ok(FieldType::Integer { min: n, max: *max })
            } else if key_is(key, "max") {
                let n = parse_min_max_integer(value)?;
                Ok(FieldType::Integer { min: *min, max: n })
            } else {
                Err(attribute_err())
            }
        },
        FieldType::Float { min, max } => {
            if key_is(key, "min") {
                let f = parse_min_max_float(value)?;
                Ok(FieldType::Float { min: f, max: copy_float(max) })
            } else if key_is(key, "max") {
                let f = parse_min_max_float(value)?;
                Ok(FieldType::Float { min: copy_float(min), max: f })
            } else {
                Err(attribute_err())
            }
        },
        FieldType::String { min, max, pattern } => {
            if key_is(key, "maxlen") {
                let n = parse_min_max_string(value)?;
                Ok(FieldType::String { min: *min, max: n, pattern: copy_text(pattern) })
            } else if key_is(key, "minlen") {
                let n = parse_min_max_string(value)?;
                Ok(FieldType::String { min: n, max: *max, pattern: copy_text(pattern) })
            } else if key_is(key, "pattern") {
                let p = parse_description_string(value)?;
                Ok(FieldType::String { min: *min, max: *max, pattern: p })
            } else {
                Err(attribute_err())
            }
        },
        _ => Err(attribute_err()),
    }
}

/// Reads the attribute `key = value` into `acc`.
fn read_attribute(acc: &mut FieldSchema, key: &String, value: &TomlValue) -> (r: Result<
    (),
    ConfigError,
>)
    ensures
        match apply_attribute(old(acc)@, key@, value@) {
            Some(a) => r is Ok && final(acc)@ == a,
            None => r matches Err(e) && e@ == attribute_error(),
        },
{
    if key_is(key, "type") {
        Ok(())
    } else if key_is(key, "required") {
        let b = parse_required(value)?;
        acc.required = b;
        Ok(())
    } else if key_is(key, "default") {
        let fits = match (&acc.field_type, value) {
            (FieldType::Integer { .. }, TomlValue::Integer(_)) => true,
            (FieldType::Float { .. }, TomlValue::Float(_)) => true,
            (FieldType::String { .. }, TomlValue::String(_)) => true,
            (FieldType::Boolean, TomlValue::Boolean(_)) => true,
            _ => false,
        };
        if !fits {
            return Err(attribute_err());
        }
        acc.default = Some(value.copy());
        Ok(())
    } else if key_is(key, "description") {
        let d = parse_description_string(value)?;
        acc.description = d;
        Ok(())
    } else if key_is(key, "allowedvalues") {
        let a = parse_allowed_values(value)?;
        acc.allowed_values = a;
        Ok(())
    } else {
        let t = read_bound(&acc.field_type, key, value)?;
        acc.field_type = t;
        Ok(())
    }
}

/// The schema of a field of type `base` whose attributes are the entries of `inner`.
fn parse_field_schema(base: FieldType, inner: &Vec<(String, TomlValue)>) -> (r: Result<
    FieldSchema,
    ConfigError,
>)
    ensures
        match field_schema_of(base@, entries_view(inner@)) {
            Ok(f) => r matches Ok(x) && x@ == f,
            Err(e) => r matches Err(x) && x@ == e,
        },
{
    let ghost ev = entries_view(inner@);
    let ghost b = base@;
    let mut acc = FieldSchema {
        field_type: base,
        required: false,
        default: None,
        allowed_values: None,
        description: None,
    };
    let mut i: usize = 0;
    while i < inner.len()
        invariant
            ev == entries_view(inner@),
            b == base@,
            i <= inner.len(),
            apply_attributes(base_schema(b), ev, 0) == apply_attributes(acc@, ev, i as int),
        decreases inner.len() - i,
    {
        match read_attribute(&mut acc, &inner[i].0, &inner[i].1) {
            Ok(()) => {},
            Err(e) => {
                return Err(e);
            },
        }
        i = i + 1;
    }
    Ok(acc)
}

/// The schema of a string field whose attributes are the entries of `inner`:
/// `required`, `default`, `minlen`, `maxlen`, `pattern`, `description`,
/// `allowedvalues` (and `type`, which was read already).
pub fn parse_string_schema(inner: &Vec<(String, TomlValue)>) -> (r: Result<FieldSchema, ConfigError>)
    ensures
        match field_schema_of(
            FieldTypeV::String { min: None, max: None, pattern: None },
            entries_view(inner@),
        ) {
            Ok(f) => r matches Ok(x) && x@ == f,
            Err(e) => r matches Err(x) && x@ == e,
        },
{
    parse_field_schema(FieldType::String { min: None, max: None, pattern: None }, inner)
}

/// The schema of a boolean field: `required`, `default`, `description`,
/// `allowedvalues` (and `type`).
pub fn parse_boolean_schema(inner: &Vec<(String, TomlValue)>) -> (r: Result<FieldSchema, ConfigError>)
    ensures
        match field_schema_of(FieldTypeV::Boolean, entries_view(inner@)) {
            Ok(f) => r matches Ok(x) && x@ == f,
            Err(e) => r matches Err(x) && x@ == e,
        },
{
    parse_field_schema(FieldType::Boolean, inner)
}

/// The schema of a float field: `required`, `default`, `min`, `max`,
/// `description`, `allowedvalues` (and `type`).
pub fn parse_float_schema(inner: &Vec<(String, TomlValue)>) -> (r: Result<FieldSchema, ConfigError>)
    ensures
        match field_schema_of(FieldTypeV::Float { min: None, max: None }, entries_view(inner@)) {
            Ok(f) => r matches Ok(x) && x@ == f,
            Err(e) => r matches Err(x) && x@ == e,
        },
{
    parse_field_schema(FieldType::Float { min: None, max: None }, inner)
}

/// The schema of an integer field: `required`, `default`, `min`, `max`,
/// `description`, `allowedvalues` (and `type`).
pub fn parse_integer_schema(inner: &Vec<(String, TomlValue)>) -> (r: Result<FieldSchema, ConfigError>)
    ensures
        match field_schema_of(FieldTypeV::Integer { min: None, max: None }, entries_view(inner@)) {
            Ok(f) => r matches Ok(x) && x@ == f,
            Err(e) => r matches Err(x) && x@ == e,
        },
{
    parse_field_schema(FieldType::Integer { min: None, max: None }, inner)
}

// ---------------------------------------------------------------- reading schemas

/// Index of the field with the given key.
fn schema_find(s: &Schema, key: &String) -> (r: Option<usize>)
    ensures
        match r {
            Some(i) => i == key_index(schema_view(s@), key@),
            None => key_index(schema_view(s@), key@) == -1,
        },
{
    let ghost sv = schema_view(s@);
    proof {
        lemma_key_index(sv, key@);
    }
    let mut i: usize = 0;
    while i < s.len()
        invariant
            sv == schema_view(s@),
            i <= s.len(),
            forall|j: int| 0 <= j < i ==> sv[j].0 != key@,
            key_index(sv, key@) == -1 || (0 <= key_index(sv, key@) < s.len() && sv[key_index(
                sv,
                key@,
            )].0 == key@),
            forall|j: int| 0 <= j < key_index(sv, key@) ==> sv[j].0 != key@,
        decreases s.len() - i,
    {
        if s[i].0 == *key {
            proof {
                lemma_key_index(sv, key@);
                assert(sv[i as int].0 == key@);
            }
            return Some(i);
        }
        i = i + 1;
    }
    None
}

/// Puts field `f` under `key`: the field of `key` is replaced, or added at the end.
fn schema_insert(s: &mut Schema, key: String, f: FieldSchema)
    ensures
        schema_view(final(s)@) == table_set(schema_view(old(s)@), key@, f@),
{
    proof {
        lemma_key_index(schema_view(s@), key@);
    }
    match schema_find(s, &key) {
        Some(i) => {
            s.set(i, (key, f));
            proof {
                assert(schema_view(s@) =~= schema_view(old(s)@).update(i as int, (key@, f@)));
            }
        },
        None => {
            s.push((key, f));
            proof {
                assert(schema_view(s@) =~= schema_view(old(s)@).push((key@, f@)));
            }
        },
    }
}

/// The schema that the entries of a schema document's table describe.
pub fn parse_schema_internal(table: &Vec<(String, TomlValue)>) -> (r: Result<Schema, ConfigError>)
    ensures
        match schema_of(entries_view(table@)) {
            Ok(s) => r matches Ok(x) && schema_view(x@) == s,
            Err(e) => r matches Err(x) && x@ == e,
        },
    decreases table@,
{
    let ghost tv = entries_view(table@);
    let mut schema: Schema = Vec::new();
    let mut i: usize = 0;
    proof {
        assert(schema_view(schema@) =~= Seq::<(Seq<char>, FieldSchemaV)>::empty());
    }
    while i < table.len()
        invariant
            tv == entries_view(table@),
            i <= table.len(),
            schema_of(tv) == schema_from(tv, i as int, schema_view(schema@)),
        decreases table.len() - i,
    {
        let key = &table[i].0;
        let inner = match &table[i].1 {
            TomlValue::Table(inner) => inner,
            _ => {
                i = i + 1;
                continue;
            },
        };
        proof {
            lemma_table_view(*inner);
        }
        let ghost iv = entries_view(inner@);
        let type_key = String::from_str("type");
        proof {
            lemma_key_index(iv, type_key@);
            reveal_strlit("type");
        }
        match table_find(inner, &type_key) {
            None => {
                proof {
                    assert(decreases_to!(table@ => table@[i as int]));
                    assert(decreases_to!(table@[i as int] => table@[i as int].1));
                    assert(decreases_to!(table@[i as int].1 => (table@[i as int].1)->Table_0));
                    assert(decreases_to!((table@[i as int].1)->Table_0 => ((table@[i as int].1)->Table_0)@));
                }
                let nested = parse_schema_internal(inner)?;
                let f = FieldSchema {
                    field_type: FieldType::Table(nested),
                    required: true,
                    default: None,
                    allowed_values: None,
                    description: None,
                };
                proof {
                    lemma_schema_view(nested);
                }
                schema_insert(&mut schema, key.clone(), f);
            },
            Some(ti) => {
                let ts = match &inner[ti].1 {
                    TomlValue::String(ts) => ts,
                    _ => {
                        return Err(
                            ConfigError::SchemaViolation {
                                line: 0,
                                key: key.clone(),
                                expected: String::from_str("a string value for  'type'"),
                                found: String::from_str("missing or invalid type"),
                            },
                        );
                    },
                };
                match FieldType::from_str(ts.as_str()) {
                    Some(FieldType::Integer { .. }) => {
                        let f = parse_integer_schema(inner)?;
                        schema_insert(&mut schema, key.clone(), f);
                    },
                    Some(FieldType::Float { .. }) => {
                        let f = parse_float_schema(inner)?;
                        schema_insert(&mut schema, key.clone(), f);
                    },
                    Some(FieldType::String { .. }) => {
                        let f = parse_string_schema(inner)?;
                        schema_insert(&mut schema, key.clone(), f);
                    },
                    Some(FieldType::Boolean) => {
                        let f = parse_boolean_schema(inner)?;
                        schema_insert(&mut schema, key.clone(), f);
                    },
                    Some(FieldType::Array(_)) => {},
                    Some(FieldType::Table(_)) => {},
                    None => {
                        return Err(
                            ConfigError::SchemaViolation {
                                line: 0,
                                key: key.clone(),
                                expected: String::from_str(
                                    "valid type (e.g., string,integer,array[...])",
                                ),
                                found: ts.clone(),
                            },
                        );
                    },
                }
            },
        }
        i = i + 1;
    }
    Ok(schema)
}

/// The schema that a schema document describes; the document must be a table.
pub fn parse_schema(value: &TomlValue) -> (r: Result<Schema, ConfigError>)
    ensures
        match value@ {
            TomlValueV::Table(t) => match schema_of(t) {
                Ok(s) => r matches Ok(x) && schema_view(x@) == s,
                Err(e) => r matches Err(x) && x@ == e,
            },
            _ => r matches Err(x) && x@ == (ConfigErrorV::UnexpectedCharacter {
                line: 0,
                col: 0,
                expected: "table"@,
                found: "non-table value"@,
            }),
        },
{
    match value {
        TomlValue::Table(pairs) => {
            proof {
                lemma_table_view(*pairs);
            }
            parse_schema_internal(pairs)
        },
        _ => Err(
            ConfigError::UnexpectedCharacter {
                line: 0,
                col: 0,
                expected: String::from_str("table"),
                found: String::from_str("non-table value"),
            },
        ),
    }
}

} // verus!
