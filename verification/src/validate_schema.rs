//! Checking a parsed document against a schema.
//!
//! Fields are checked in the order of the schema, nested tables depth first, and
//! the first failure stops the validation. Comparing floats is left to the caller:
//! each float field met on the way is handed back as a [`FloatCheck`], in order,
//! and the caller runs those checks before it reports the error that stopped the
//! walk, if any.
use vstd::prelude::*;
use crate::config_error::{ConfigError, ConfigErrorV};
use crate::field::{FieldSchemaV, FieldType, FieldTypeV, Schema, SchemaV, field_type_name, lemma_schema_view, opt_float_view, opt_size_view, opt_text_view, opt_values_view, schema_view};
use crate::parse_schema::{attribute_err, attribute_error};
use crate::pattern::{compile_pattern, pattern_compiles, pattern_match, pattern_matches};
use crate::text::{int_string, int_text, nat_text, usize_string};
use crate::token::{FloatValue, FloatValueV};
use crate::toml_value::{TableV, TomlValue, TomlValueV, debug_text, entries_view, lemma_key_index, lemma_table_view, table_find, table_get, value_debug, value_view, values_view};

verus! {

/// A float field to be checked against its bounds and allowed values.
#[derive(Debug, PartialEq)]
pub struct FloatCheck {
    pub key: String,
    pub value: FloatValue,
    pub min: Option<FloatValue>,
    pub max: Option<FloatValue>,
    pub allowed_values: Option<Vec<TomlValue>>,
}

/// Mathematical model of a [`FloatCheck`].
pub struct FloatCheckV {
    pub key: Seq<char>,
    pub value: FloatValueV,
    pub min: Option<FloatValueV>,
    pub max: Option<FloatValueV>,
    pub allowed_values: Option<Seq<TomlValueV>>,
}

impl View for FloatCheck {
    type V = FloatCheckV;

    open spec fn view(&self) -> FloatCheckV {
        FloatCheckV {
            key: self.key@,
            value: self.value@,
            min: opt_float_view(self.min),
            max: opt_float_view(self.max),
            allowed_values: opt_values_view(self.allowed_values),
        }
    }
}

/// What validating a document found: the float fields met, in order, and the
/// failure that stopped it, if one did.
#[derive(Debug, PartialEq)]
pub struct Validation {
    pub float_checks: Vec<FloatCheck>,
    pub error: Option<ConfigError>,
}

/// Mathematical model of a [`Validation`].
pub struct ValidationV {
    pub float_checks: Seq<FloatCheckV>,
    pub error: Option<ConfigErrorV>,
}

pub open spec fn checks_view(c: Seq<FloatCheck>) -> Seq<FloatCheckV> {
    Seq::new(c.len(), |i: int| c[i]@)
}

impl View for Validation {
    type V = ValidationV;

    open spec fn view(&self) -> ValidationV {
        ValidationV {
            float_checks: checks_view(self.float_checks@),
            error: match self.error {
                Some(e) => Some(e@),
                None => None,
            },
        }
    }
}

/// The outcome of checking one string.
pub enum StringCheck {
    Pass,
    Fail(ConfigErrorV),
    /// Validation reached a pattern that does not compile.
    Stuck,
}

/// The error for a value below `bound`; the message shows the bound itself.
pub open spec fn below(key: Seq<char>, bound: Seq<char>) -> ConfigErrorV {
    ConfigErrorV::SchemaViolation { line: 0, key, expected: ">= "@ + bound, found: bound }
}

/// The error for a value above `bound`; the message shows the bound itself.
pub open spec fn above(key: Seq<char>, bound: Seq<char>) -> ConfigErrorV {
    ConfigErrorV::SchemaViolation { line: 0, key, expected: "<= "@ + bound, found: bound }
}

/// Whether `allowed`, when it is given, holds `v`.
pub open spec fn allows(allowed: Option<Seq<TomlValueV>>, v: TomlValueV) -> bool {
    match allowed {
        Some(a) => a.contains(v),
        None => true,
    }
}

/// The failure of integer `n` of field `key`, if it fails its bounds or is not
/// one of the allowed values.
pub open spec fn integer_problem(
    min: Option<i64>,
    max: Option<i64>,
    allowed: Option<Seq<TomlValueV>>,
    key: Seq<char>,
    n: i64,
) -> Option<ConfigErrorV> {
    if min is Some && n < min->0 {
        Some(below(key, int_text(min->0 as int)))
    } else if max is Some && n > max->0 {
        Some(above(key, int_text(max->0 as int)))
    } else if !allows(allowed, TomlValueV::Integer(n)) {
        Some(attribute_error())
    } else {
        None
    }
}

/// The length of `s` in bytes, as `str::len` gives it.
pub open spec fn byte_len(s: Seq<char>) -> usize {
    vstd::utf8::encode_utf8(s).len() as usize
}

/// The outcome of checking string `s` of field `key` against its bounds on the
/// length in bytes, its pattern and its allowed values, in that order.
pub open spec fn string_problem(
    min: Option<nat>,
    max: Option<nat>,
    pattern: Option<Seq<char>>,
    allowed: Option<Seq<TomlValueV>>,
    key: Seq<char>,
    s: Seq<char>,
) -> StringCheck {
    if min is Some && byte_len(s) < min->0 {
        StringCheck::Fail(below(key, nat_text(min->0)))
    } else if max is Some && byte_len(s) > max->0 {
        StringCheck::Fail(above(key, nat_text(max->0)))
    } else if pattern is Some && !pattern_compiles(pattern->0) {
        StringCheck::Stuck
    } else if pattern is Some && !pattern_match(pattern->0, s) {
        StringCheck::Fail(attribute_error())
    } else if !allows(allowed, TomlValueV::String(s)) {
        StringCheck::Fail(attribute_error())
    } else {
        StringCheck::Pass
    }
}

/// The validation of `config` against the fields `schema[i..]`, with the float
/// fields `checks` met before; nothing when it reaches a pattern that does not
/// compile.
pub open spec fn validation_from(
    schema: SchemaV,
    config: TableV,
    i: int,
    checks: Seq<FloatCheckV>,
) -> Option<ValidationV>
    decreases schema, schema.len() - i,
{
    if i < 0 || i >= schema.len() {
        Some(ValidationV { float_checks: checks, error: None })
    } else {
        let key = schema[i].0;
        let fs = schema[i].1;
        match table_get(config, key) {
            None => if fs.required {
                Some(
                    ValidationV {
                        float_checks: checks,
                        error: Some(ConfigErrorV::MissingValue { line: 0, col: 0, key }),
                    },
                )
            } else {
                validation_from(schema, config, i + 1, checks)
            },
            Some(value) => match (fs.field_type, value) {
                (FieldTypeV::String { min, max, pattern }, TomlValueV::String(s)) => match string_problem(
                    min,
                    max,
                    pattern,
                    fs.allowed_values,
                    key,
                    s,
                ) {
                    StringCheck::Pass => validation_from(schema, config, i + 1, checks),
                    StringCheck::Fail(e) => Some(ValidationV { float_checks: checks, error: Some(e) }),
                    StringCheck::Stuck => None,
                },
                (FieldTypeV::Integer { min, max }, TomlValueV::Integer(n)) => match integer_problem(
                    min,
                    max,
                    fs.allowed_values,
                    key,
                    n,
                ) {
                    Some(e) => Some(ValidationV { float_checks: checks, error: Some(e) }),
                    None => validation_from(schema, config, i + 1, checks),
                },
                (FieldTypeV::Float { min, max }, TomlValueV::Float(f)) => validation_from(
                    schema,
                    config,
                    i + 1,
                    checks.push(
                        FloatCheckV { key, value: f, min, max, allowed_values: fs.allowed_values },
                    ),
                ),
                (FieldTypeV::Boolean, TomlValueV::Boolean(_)) => validation_from(
                    schema,
                    config,
                    i + 1,
                    checks,
                ),
                (FieldTypeV::Array(_), TomlValueV::Array(_)) => validation_from(
                    schema,
                    config,
                    i + 1,
                    checks,
                ),
                (FieldTypeV::Table(inner), TomlValueV::Table(t)) => match validation_from(
                    inner,
                    t,
                    0,
                    checks,
                ) {
                    None => None,
                    Some(v) => if v.error is Some {
                        Some(v)
                    } else {
                        validation_from(schema, config, i + 1, v.float_checks)
                    },
                },
                (ft, v) => Some(
                    ValidationV {
                        float_checks: checks,
                        error: Some(
                            ConfigErrorV::SchemaViolation {
                                line: 0,
                                key,
                                expected: field_type_name(ft),
                                found: value_debug(v),
                            },
                        ),
                    },
                ),
            },
        }
    }
}

/// The validation of the table `config` against `schema`; nothing when it reaches a
/// pattern that does not compile.
pub open spec fn validation_of(schema: SchemaV, config: TableV) -> Option<ValidationV> {
    validation_from(schema, config, 0, seq![])
}


/// What a field that passed validation is known to satisfy, short of its float
/// bounds and of the fields of a nested table: present when required, of its
/// type, and within its integer and string constraints.
pub open spec fn field_passes(fs: FieldSchemaV, value: Option<TomlValueV>) -> bool {
    match value {
        None => !fs.required,
        Some(v) => match (fs.field_type, v) {
            (FieldTypeV::String { min, max, pattern }, TomlValueV::String(s)) => {
                &&& (min matches Some(m) ==> byte_len(s) >= m)
                &&& (max matches Some(m) ==> byte_len(s) <= m)
                &&& (pattern matches Some(p) ==> pattern_compiles(p) && pattern_match(p, s))
                &&& allows(fs.allowed_values, v)
            },
            (FieldTypeV::Integer { min, max }, TomlValueV::Integer(n)) => {
                &&& (min matches Some(m) ==> n >= m)
                &&& (max matches Some(m) ==> n <= m)
                &&& allows(fs.allowed_values, v)
            },
            (FieldTypeV::Float { .. }, TomlValueV::Float(_)) => true,
            (FieldTypeV::Boolean, TomlValueV::Boolean(_)) => true,
            (FieldTypeV::Array(_), TomlValueV::Array(_)) => true,
            (FieldTypeV::Table(_), TomlValueV::Table(_)) => true,
            _ => false,
        },
    }
}

/// Whether `config` satisfies the fields `schema[i..]`, nested tables included,
/// short of float bounds.
pub open spec fn satisfies(schema: SchemaV, config: TableV, i: int) -> bool
    decreases schema, schema.len() - i,
{
    if i < 0 || i >= schema.len() {
        true
    } else {
        let fs = schema[i].1;
        let value = table_get(config, schema[i].0);
        &&& field_passes(fs, value)
        &&& match (fs.field_type, value) {
            (FieldTypeV::Table(inner), Some(TomlValueV::Table(t))) => satisfies(inner, t, 0),
            _ => true,
        }
        &&& satisfies(schema, config, i + 1)
    }
}

/// Validation stops on no error exactly when the document satisfies the schema:
/// each required field present, each value of its field's type and within its
/// integer and string constraints, each pattern compiling and matching, and each
/// nested table satisfying its nested schema.
pub proof fn lemma_validation_iff(schema: SchemaV, config: TableV, i: int, checks: Seq<FloatCheckV>)
    requires
        0 <= i,
    ensures
        (validation_from(schema, config, i, checks) matches Some(v) && v.error is None) <==> satisfies(
            schema,
            config,
            i,
        ),
    decreases schema, schema.len() - i,
{
    if i < schema.len() {
        let key = schema[i].0;
        let fs = schema[i].1;
        match table_get(config, key) {
            None => {
                lemma_validation_iff(schema, config, i + 1, checks);
            },
            Some(value) => {
                match (fs.field_type, value) {
                    (FieldTypeV::String { min, max, pattern }, TomlValueV::String(s)) => {
                        lemma_validation_iff(schema, config, i + 1, checks);
                    },
                    (FieldTypeV::Integer { min, max }, TomlValueV::Integer(n)) => {
                        lemma_validation_iff(schema, config, i + 1, checks);
                    },
                    (FieldTypeV::Float { min, max }, TomlValueV::Float(f)) => {
                        lemma_validation_iff(
                            schema,
                            config,
                            i + 1,
                            checks.push(
                                FloatCheckV {
                                    key,
                                    value: f,
                                    min,
                                    max,
                                    allowed_values: fs.allowed_values,
                                },
                            ),
                        );
                    },
                    (FieldTypeV::Table(inner), TomlValueV::Table(t)) => {
                        assert(decreases_to!(schema => schema[i]));
                        assert(decreases_to!(schema[i] => schema[i].1));
                        assert(decreases_to!(schema[i].1 => schema[i].1.field_type));
                        assert(decreases_to!(schema[i].1.field_type => inner));
                        lemma_validation_iff(inner, t, 0, checks);
                        match validation_from(inner, t, 0, checks) {
                            Some(w) => {
                                lemma_validation_iff(schema, config, i + 1, w.float_checks);
                            },
                            None => {},
                        }
                    },
                    _ => {
                        lemma_validation_iff(schema, config, i + 1, checks);
                    },
                }
            },
        }
    }
}

/// The float check that a float field hands back, if the field is a float field
/// and its value a float.
pub open spec fn float_check_of(key: Seq<char>, fs: FieldSchemaV, value: Option<TomlValueV>) -> Option<
    FloatCheckV,
> {
    match (fs.field_type, value) {
        (FieldTypeV::Float { min, max }, Some(TomlValueV::Float(f))) => Some(
            FloatCheckV { key, value: f, min, max, allowed_values: fs.allowed_values },
        ),
        _ => None,
    }
}

proof fn lemma_checks_grow(schema: SchemaV, config: TableV, i: int, checks: Seq<FloatCheckV>)
    requires
        0 <= i,
    ensures
        validation_from(schema, config, i, checks) matches Some(v) ==> checks.len()
            <= v.float_checks.len() && v.float_checks.subrange(0, checks.len() as int) == checks,
    decreases schema, schema.len() - i,
{
    if i < schema.len() {
        let key = schema[i].0;
        let fs = schema[i].1;
        match table_get(config, key) {
            None => {
                lemma_checks_grow(schema, config, i + 1, checks);
            },
            Some(value) => {
                match (fs.field_type, value) {
                    (FieldTypeV::Float { min, max }, TomlValueV::Float(f)) => {
                        let c2 = checks.push(
                            FloatCheckV { key, value: f, min, max, allowed_values: fs.allowed_values },
                        );
                        lemma_checks_grow(schema, config, i + 1, c2);
                        match validation_from(schema, config, i + 1, c2) {
                            Some(v) => {
                                assert(v.float_checks.subrange(0, checks.len() as int)
                                    =~= v.float_checks.subrange(0, c2.len() as int).subrange(
                                    0,
                                    checks.len() as int,
                                ));
                                assert(c2.subrange(0, checks.len() as int) =~= checks);
                            },
                            None => {},
                        }
                    },
                    (FieldTypeV::Table(inner), TomlValueV::Table(t)) => {
                        assert(decreases_to!(schema => schema[i]));
                        assert(decreases_to!(schema[i] => schema[i].1));
                        assert(decreases_to!(schema[i].1 => schema[i].1.field_type));
                        assert(decreases_to!(schema[i].1.field_type => inner));
                        lemma_checks_grow(inner, t, 0, checks);
                        match validation_from(inner, t, 0, checks) {
                            Some(w) => {
                                if w.error is None {
                                    lemma_checks_grow(schema, config, i + 1, w.float_checks);
                                    match validation_from(schema, config, i + 1, w.float_checks) {
                                        Some(v) => {
                                            assert(v.float_checks.subrange(0, checks.len() as int)
                                                =~= v.float_checks.subrange(
                                                0,
                                                w.float_checks.len() as int,
                                            ).subrange(0, checks.len() as int));
                                        },
                                        None => {},
                                    }
                                }
                            },
                            None => {},
                        }
                    },
                    _ => {
                        lemma_checks_grow(schema, config, i + 1, checks);
                    },
                }
            },
        }
    } else {
        assert(checks.subrange(0, checks.len() as int) =~= checks);
    }
}

/// Validation hands back every float field that it meets with a float value:
/// when it stops on no error, the float checks hold one for each such field of
/// the schema, with the field's key, value, bounds and allowed values.
pub proof fn lemma_float_fields_handed_back(
    schema: SchemaV,
    config: TableV,
    i: int,
    checks: Seq<FloatCheckV>,
)
    requires
        0 <= i,
        validation_from(schema, config, i, checks) matches Some(v) && v.error is None,
    ensures
        forall|j: int|
            i <= j < schema.len() && (#[trigger] float_check_of(
                schema[j].0,
                schema[j].1,
                table_get(config, schema[j].0),
            )) is Some ==> validation_from(schema, config, i, checks)->0.float_checks.contains(
                float_check_of(schema[j].0, schema[j].1, table_get(config, schema[j].0))->0,
            ),
    decreases schema.len() - i,
{
    if i < schema.len() {
        let v = validation_from(schema, config, i, checks)->0;
        let key = schema[i].0;
        let fs = schema[i].1;
        match table_get(config, key) {
            None => {
                lemma_float_fields_handed_back(schema, config, i + 1, checks);
            },
            Some(value) => {
                match (fs.field_type, value) {
                    (FieldTypeV::Float { min, max }, TomlValueV::Float(f)) => {
                        let fc = FloatCheckV {
                            key,
                            value: f,
                            min,
                            max,
                            allowed_values: fs.allowed_values,
                        };
                        let c2 = checks.push(fc);
                        lemma_float_fields_handed_back(schema, config, i + 1, c2);
                        lemma_checks_grow(schema, config, i + 1, c2);
                        assert(v.float_checks.subrange(0, c2.len() as int)[checks.len() as int] == fc);
                        assert(v.float_checks[checks.len() as int] == fc);
                    },
                    (FieldTypeV::Table(inner), TomlValueV::Table(t)) => {
                        let w = validation_from(inner, t, 0, checks)->0;
                        lemma_float_fields_handed_back(schema, config, i + 1, w.float_checks);
                    },
                    _ => {
                        lemma_float_fields_handed_back(schema, config, i + 1, checks);
                    },
                }
            },
        }
    }
}

// ---------------------------------------------------------------- checks

fn copy_float(f: &Option<FloatValue>) -> (r: Option<FloatValue>)
    ensures
        opt_float_view(r) == opt_float_view(*f),
{
    match f {
        Some(x) => Some(x.copy()),
        None => None,
    }
}

fn copy_values(a: &Option<Vec<TomlValue>>) -> (r: Option<Vec<TomlValue>>)
    ensures
        opt_values_view(r) == opt_values_view(*a),
{
    match a {
        Some(v) => {
            let mut out: Vec<TomlValue> = Vec::new();
            let mut i: usize = 0;
            while i < v.len()
                invariant
                    i <= v.len(),
                    values_view(out@) == values_view(v@).subrange(0, i as int),
                decreases v.len() - i,
            {
                let c = v[i].copy();
                proof {
                    assert(c@ == value_view(v@[i as int]));
                    assert(values_view(out@).len() == i);
                    assert(values_view(out@.push(c)) =~= values_view(v@).subrange(0, i + 1)) by {
                        assert forall|k: int| 0 <= k < i + 1 implies #[trigger] values_view(out@.push(c))[k]
                            == values_view(v@).subrange(0, i + 1)[k] by {
                            if k < i {
                                assert(values_view(out@)[k] == values_view(v@).subrange(0, i as int)[k]);
                            }
                        }
                    }
                }
                out.push(c);
                i = i + 1;
            }
            proof {
                assert(values_view(v@).subrange(0, v.len() as int) =~= values_view(v@));
            }
            Some(out)
        },
        None => None,
    }
}

/// Whether `a` holds the integer `n`.
fn holds_integer(a: &Vec<TomlValue>, n: i64) -> (r: bool)
    ensures
        r == values_view(a@).contains(TomlValueV::Integer(n)),
{
    let ghost av = values_view(a@);
    let mut i: usize = 0;
    while i < a.len()
        invariant
            av == values_view(a@),
            i <= a.len(),
            forall|k: int| 0 <= k < i ==> av[k] != TomlValueV::Integer(n),
        decreases a.len() - i,
    {
        match &a[i] {
            TomlValue::Integer(m) => {
                if *m == n {
                    proof {
                        assert(av[i as int] == TomlValueV::Integer(n));
                    }
                    return true;
                }
            },
            _ => {},
        }
        i = i + 1;
    }
    false
}

/// Whether `a` holds the string `s`.
fn holds_string(a: &Vec<TomlValue>, s: &String) -> (r: bool)
    ensures
        r == values_view(a@).contains(TomlValueV::String(s@)),
{
    let ghost av = values_view(a@);
    let mut i: usize = 0;
    while i < a.len()
        invariant
            av == values_view(a@),
            i <= a.len(),
            forall|k: int| 0 <= k < i ==> av[k] != TomlValueV::String(s@),
        decreases a.len() - i,
    {
        match &a[i] {
            TomlValue::String(t) => {
                if *t == *s {
                    proof {
                        assert(av[i as int] == TomlValueV::String(s@));
                    }
                    return true;
                }
            },
            _ => {},
        }
        i = i + 1;
    }
    false
}

fn bound_error(key: &String, op: &str, bound: String) -> (r: ConfigError)
    ensures
        r@ == (ConfigErrorV::SchemaViolation {
            line: 0,
            key: key@,
            expected: op@ + bound@,
            found: bound@,
        }),
{
    let mut e = String::from_str(op);
    e.append(bound.as_str());
    ConfigError::SchemaViolation { line: 0, key: key.clone(), expected: e, found: bound }
}

/// Checks integer `n` of field `key` against its bounds and allowed values.
fn validate_integer(
    min: &Option<i64>,
    max: &Option<i64>,
    allowed_values: &Option<Vec<TomlValue>>,
    key: &String,
    n: &i64,
) -> (r: Result<(), ConfigError>)
    ensures
        match integer_problem(*min, *max, opt_values_view(*allowed_values), key@, *n) {
            Some(e) => r matches Err(x) && x@ == e,
            None => r is Ok,
        },
{
    match min {
        Some(i) => {
            if *n < *i {
                return Err(bound_error(key, ">= ", int_string(*i)));
            }
        },
        None => {},
    }
    match max {
        Some(i) => {
            if *n > *i {
                return Err(bound_error(key, "<= ", int_string(*i)));
            }
        },
        None => {},
    }
    match allowed_values {
        Some(v) => {
            if !holds_integer(v, *n) {
                return Err(attribute_err());
            }
        },
        None => {},
    }
    Ok(())
}

/// Checks string `s` of field `key` against its bounds on the length in bytes,
/// its pattern and its allowed values; nothing when the pattern does not compile.
fn validate_string(
    min: &Option<usize>,
    max: &Option<usize>,
    pattern: &Option<String>,
    allowed_values: &Option<Vec<TomlValue>>,
    key: &String,
    s: &String,
) -> (r: Option<Result<(), ConfigError>>)
    ensures
        match string_problem(
            opt_size_view(*min),
            opt_size_view(*max),
            opt_text_view(*pattern),
            opt_values_view(*allowed_values),
            key@,
            s@,
        ) {
            StringCheck::Pass => r matches Some(Ok(_)),
            StringCheck::Fail(e) => r matches Some(Err(x)) && x@ == e,
            StringCheck::Stuck => r is None,
        },
{
    let len = s.as_str().len();
    match min {
        Some(i) => {
            if len < *i {
                return Some(Err(bound_error(key, ">= ", usize_string(*i))));
            }
        },
        None => {},
    }
    match max {
        Some(i) => {
            if len > *i {
                return Some(Err(bound_error(key, "<= ", usize_string(*i))));
            }
        },
        None => {},
    }
    match pattern {
        Some(p) => {
            match compile_pattern(p.as_str()) {
                None => {
                    return None;
                },
                Some(re) => {
                    if !pattern_matches(&re, s.as_str()) {
                        return Some(Err(attribute_err()));
                    }
                },
            }
        },
        None => {},
    }
    match allowed_values {
        Some(v) => {
            if !holds_string(v, s) {
                return Some(Err(attribute_err()));
            }
        },
        None => {},
    }
    Some(Ok(()))
}

pub open spec fn opt_error_view(e: Option<ConfigError>) -> Option<ConfigErrorV> {
    match e {
        Some(x) => Some(x@),
        None => None,
    }
}

/// Checks `config` against the fields of `schema`, appending to `checks` the
/// float fields met; gives the error that stopped the validation, or nothing when a
/// pattern that the validation reaches does not compile.
fn check_fields(
    schema: &Schema,
    config: &Vec<(String, TomlValue)>,
    checks: &mut Vec<FloatCheck>,
) -> (r: Option<Option<ConfigError>>)
    ensures
        match validation_from(
            schema_view(schema@),
            entries_view(config@),
            0,
            checks_view(old(checks)@),
        ) {
            None => r is None,
            Some(v) => r matches Some(e) && checks_view(final(checks)@) == v.float_checks
                && opt_error_view(e) == v.error,
        },
    decreases schema@,
{
    let ghost sv = schema_view(schema@);
    let ghost cv = entries_view(config@);
    let ghost c0 = checks_view(checks@);
    let mut i: usize = 0;
    while i < schema.len()
        invariant
            sv == schema_view(schema@),
            cv == entries_view(config@),
            c0 == checks_view(old(checks)@),
            i <= schema.len(),
            validation_from(sv, cv, 0, c0) == validation_from(sv, cv, i as int, checks_view(checks@)),
        decreases schema.len() - i,
    {
        let key = &schema[i].0;
        let fs = &schema[i].1;
        proof {
            lemma_key_index(cv, key@);
        }
        let found = table_find(config, key);
        match found {
            None => {
                if fs.required {
                    return Some(Some(ConfigError::MissingValue { line: 0, col: 0, key: key.clone() }));
                }
            },
            Some(idx) => {
                let value = &config[idx].1;
                match (&fs.field_type, value) {
                    (FieldType::String { min, max, pattern }, TomlValue::String(s)) => {
                        match validate_string(min, max, pattern, &fs.allowed_values, key, s) {
                            None => {
                                return None;
                            },
                            Some(Err(e)) => {
                                return Some(Some(e));
                            },
                            Some(Ok(())) => {},
                        }
                    },
                    (FieldType::Integer { min, max }, TomlValue::Integer(n)) => {
                        match validate_integer(min, max, &fs.allowed_values, key, n) {
                            Err(e) => {
                                return Some(Some(e));
                            },
                            Ok(()) => {},
                        }
                    },
                    (FieldType::Float { min, max }, TomlValue::Float(f)) => {
                        let c = FloatCheck {
                            key: key.clone(),
                            value: f.copy(),
                            min: copy_float(min),
                            max: copy_float(max),
                            allowed_values: copy_values(&fs.allowed_values),
                        };
                        proof {
                            assert(checks_view(checks@.push(c)) =~= checks_view(checks@).push(c@));
                        }
                        checks.push(c);
                    },
                    (FieldType::Boolean, TomlValue::Boolean(_)) => {},
                    (FieldType::Array(_), TomlValue::Array(_)) => {},
                    (FieldType::Table(inner), TomlValue::Table(t)) => {
                        proof {
                            lemma_schema_view(*inner);
                            lemma_table_view(*t);
                            assert(decreases_to!(schema@ => schema@[i as int]));
                            assert(decreases_to!(schema@[i as int] => schema@[i as int].1));
                            assert(decreases_to!(schema@[i as int].1 => schema@[i as int].1.field_type));
                            assert(decreases_to!(schema@[i as int].1.field_type => (schema@[i as int].1.field_type)->Table_0));
                            assert(decreases_to!((schema@[i as int].1.field_type)->Table_0 => ((schema@[i as int].1.field_type)->Table_0)@));
                        }
                        match check_fields(inner, t, checks) {
                            None => {
                                return None;
                            },
                            Some(Some(e)) => {
                                return Some(Some(e));
                            },
                            Some(None) => {},
                        }
                    },
                    (ft, v) => {
                        return Some(
                            Some(
                                ConfigError::SchemaViolation {
                                    line: 0,
                                    key: key.clone(),
                                    expected: ft.name(),
                                    found: debug_text(v),
                                },
                            ),
                        );
                    },
                }
            },
        }
        i = i + 1;
    }
    Some(None)
}

/// Checks the table `config` against `schema`: see [`validation_of`]. Every
/// pattern that the validation reaches must compile, as `regex` compiles it.
pub fn validate(schema: &Schema, config: &Vec<(String, TomlValue)>) -> (r: Validation)
    requires
        validation_of(schema_view(schema@), entries_view(config@)) is Some,
    ensures
        validation_of(schema_view(schema@), entries_view(config@)) == Some(r@),
{
    let mut checks: Vec<FloatCheck> = Vec::new();
    proof {
        assert(checks_view(checks@) =~= Seq::<FloatCheckV>::empty());
    }
    let error = match check_fields(schema, config, &mut checks) {
        Some(e) => e,
        None => {
            proof {
                assert(false);
            }
            None
        },
    };
    Validation { float_checks: checks, error }
}

/// Checks the table `config` against `schema` when every pattern that the validation
/// reaches compiles; nothing otherwise.
pub fn try_validate(schema: &Schema, config: &Vec<(String, TomlValue)>) -> (r: Option<Validation>)
    ensures
        match validation_of(schema_view(schema@), entries_view(config@)) {
            Some(v) => r matches Some(x) && x@ == v,
            None => r is None,
        },
{
    let mut probe: Vec<FloatCheck> = Vec::new();
    proof {
        assert(checks_view(probe@) =~= Seq::<FloatCheckV>::empty());
    }
    match check_fields(schema, config, &mut probe) {
        None => None,
        Some(_) => Some(validate(schema, config)),
    }
}
} // verus!
