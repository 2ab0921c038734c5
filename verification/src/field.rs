//! The types that a schema gives to its fields, and how they are named.
use vstd::prelude::*;
use crate::token::{FloatValue, FloatValueV};
use crate::toml_value::{TomlValue, TomlValueV, value_view, values_view};

verus! {

#[derive(Debug, PartialEq)]
#[allow(inconsistent_fields)]
pub enum FieldType {
    Boolean,
    Integer { min: Option<i64>, max: Option<i64> },
    Float { min: Option<FloatValue>, max: Option<FloatValue> },
    /// Bounds on the length in bytes (UTF-8), and a regular expression.
    String { min: Option<usize>, max: Option<usize>, pattern: Option<String> },
    Array(Box<FieldType>),
    Table(Schema),
}

/// What a schema says of one field.
#[derive(Debug, PartialEq)]
pub struct FieldSchema {
    pub field_type: FieldType,
    pub required: bool,
    pub default: Option<TomlValue>,
    pub allowed_values: Option<Vec<TomlValue>>,
    pub description: Option<String>,
}

/// The fields of a schema, each under its key, in the order of the schema document.
pub type Schema = Vec<(String, FieldSchema)>;

/// Mathematical model of a [`FieldType`].
#[allow(inconsistent_fields)]
pub enum FieldTypeV {
    Boolean,
    Integer { min: Option<i64>, max: Option<i64> },
    Float { min: Option<FloatValueV>, max: Option<FloatValueV> },
    String { min: Option<nat>, max: Option<nat>, pattern: Option<Seq<char>> },
    Array(Box<FieldTypeV>),
    Table(Seq<(Seq<char>, FieldSchemaV)>),
}

/// Mathematical model of a [`FieldSchema`].
pub struct FieldSchemaV {
    pub field_type: FieldTypeV,
    pub required: bool,
    pub default: Option<TomlValueV>,
    pub allowed_values: Option<Seq<TomlValueV>>,
    pub description: Option<Seq<char>>,
}

/// Mathematical model of a [`Schema`].
pub type SchemaV = Seq<(Seq<char>, FieldSchemaV)>;

pub open spec fn opt_float_view(f: Option<FloatValue>) -> Option<FloatValueV> {
    match f {
        Some(x) => Some(x@),
        None => None,
    }
}

pub open spec fn opt_size_view(n: Option<usize>) -> Option<nat> {
    match n {
        Some(x) => Some(x as nat),
        None => None,
    }
}

pub open spec fn opt_text_view(s: Option<String>) -> Option<Seq<char>> {
    match s {
        Some(x) => Some(x@),
        None => None,
    }
}

pub open spec fn opt_value_view(v: Option<TomlValue>) -> Option<TomlValueV> {
    match v {
        Some(x) => Some(value_view(x)),
        None => None,
    }
}

pub open spec fn opt_values_view(v: Option<Vec<TomlValue>>) -> Option<Seq<TomlValueV>> {
    match v {
        Some(x) => Some(values_view(x@)),
        None => None,
    }
}

pub open spec fn field_type_view(t: FieldType) -> FieldTypeV
    decreases t,
{
    match t {
        FieldType::Boolean => FieldTypeV::Boolean,
        FieldType::Integer { min, max } => FieldTypeV::Integer { min, max },
        FieldType::Float { min, max } => FieldTypeV::Float {
            min: opt_float_view(min),
            max: opt_float_view(max),
        },
        FieldType::String { min, max, pattern } => FieldTypeV::String {
            min: opt_size_view(min),
            max: opt_size_view(max),
            pattern: opt_text_view(pattern),
        },
        FieldType::Array(inner) => FieldTypeV::Array(Box::new(field_type_view(*inner))),
        FieldType::Table(s) => FieldTypeV::Table(
            Seq::new(
                s@.len(),
                |i: int|
                    if 0 <= i < s@.len() {
                        (s@[i].0@, field_schema_view(s@[i].1))
                    } else {
                        (Seq::empty(), FieldSchemaV {
                            field_type: FieldTypeV::Boolean,
                            required: false,
                            default: None,
                            allowed_values: None,
                            description: None,
                        })
                    },
            ),
        ),
    }
}

pub open spec fn field_schema_view(f: FieldSchema) -> FieldSchemaV
    decreases f,
{
    FieldSchemaV {
        field_type: field_type_view(f.field_type),
        required: f.required,
        default: opt_value_view(f.default),
        allowed_values: opt_values_view(f.allowed_values),
        description: opt_text_view(f.description),
    }
}

impl View for FieldType {
    type V = FieldTypeV;

    open spec fn view(&self) -> FieldTypeV {
        field_type_view(*self)
    }
}

impl View for FieldSchema {
    type V = FieldSchemaV;

    open spec fn view(&self) -> FieldSchemaV {
        field_schema_view(*self)
    }
}

/// The models of the fields of a schema.
pub open spec fn schema_view(s: Seq<(String, FieldSchema)>) -> SchemaV {
    Seq::new(s.len(), |i: int| (s[i].0@, field_schema_view(s[i].1)))
}

pub proof fn lemma_schema_view(s: Schema)
    ensures
        field_type_view(FieldType::Table(s)) == FieldTypeV::Table(schema_view(s@)),
{
    let v = field_type_view(FieldType::Table(s));
    assert(v->Table_0 =~= schema_view(s@));
}

// ---------------------------------------------------------------- names of types

/// The name of a type, as schemas write it.
pub open spec fn field_type_name(t: FieldTypeV) -> Seq<char>
    decreases t,
{
    match t {
        FieldTypeV::Boolean => "boolean"@,
        FieldTypeV::Integer { .. } => "integer"@,
        FieldTypeV::Float { .. } => "float"@,
        FieldTypeV::String { .. } => "string"@,
        FieldTypeV::Array(inner) => "array["@ + field_type_name(*inner) + "]"@,
        FieldTypeV::Table(_) => "table"@,
    }
}

/// Whether `c` is white space in the sense of `char::is_whitespace` (the Unicode
/// property `White_Space`).
pub open spec fn is_white(c: char) -> bool {
    let n = c as u32;
    (0x9 <= n <= 0xd) || n == 0x20 || n == 0x85 || n == 0xa0 || n == 0x1680 || (0x2000 <= n
        <= 0x200a) || n == 0x2028 || n == 0x2029 || n == 0x202f || n == 0x205f || n == 0x3000
}

/// The first index in `lo..hi` that does not hold white space, or `hi`.
pub open spec fn trim_lo(s: Seq<char>, lo: int, hi: int) -> int
    decreases hi - lo,
{
    if lo < hi && is_white(s[lo]) {
        trim_lo(s, lo + 1, hi)
    } else {
        lo
    }
}

/// One past the last index in `lo..hi` that does not hold white space, or `lo`.
pub open spec fn trim_hi(s: Seq<char>, lo: int, hi: int) -> int
    decreases hi - lo,
{
    if lo < hi && is_white(s[hi - 1]) {
        trim_hi(s, lo, hi - 1)
    } else {
        hi
    }
}

/// `s` without white space at either end, as `str::trim` gives it.
pub open spec fn trimmed(s: Seq<char>) -> Seq<char> {
    let a = trim_lo(s, 0, s.len() as int);
    s.subrange(a, trim_hi(s, a, s.len() as int))
}

pub proof fn lemma_trim_lo(s: Seq<char>, lo: int, hi: int)
    requires
        0 <= lo <= hi <= s.len(),
    ensures
        lo <= trim_lo(s, lo, hi) <= hi,
        forall|k: int| lo <= k < trim_lo(s, lo, hi) ==> is_white(#[trigger] s[k]),
        trim_lo(s, lo, hi) < hi ==> !is_white(s[trim_lo(s, lo, hi)]),
    decreases hi - lo,
{
    if lo < hi && is_white(s[lo]) {
        lemma_trim_lo(s, lo + 1, hi);
    }
}

pub proof fn lemma_trim_hi(s: Seq<char>, lo: int, hi: int)
    requires
        0 <= lo <= hi <= s.len(),
    ensures
        lo <= trim_hi(s, lo, hi) <= hi,
        forall|k: int| trim_hi(s, lo, hi) <= k < hi ==> is_white(#[trigger] s[k]),
        trim_hi(s, lo, hi) > lo ==> !is_white(s[trim_hi(s, lo, hi) - 1]),
    decreases hi - lo,
{
    if lo < hi && is_white(s[hi - 1]) {
        lemma_trim_hi(s, lo, hi - 1);
    }
}

pub proof fn lemma_trimmed_len(s: Seq<char>)
    ensures
        trimmed(s).len() <= s.len(),
{
    lemma_trim_lo(s, 0, s.len() as int);
    lemma_trim_hi(s, trim_lo(s, 0, s.len() as int), s.len() as int);
}

/// The index of the first `c` in `s`, or -1.
pub open spec fn first_index(s: Seq<char>, c: char, i: int) -> int
    decreases s.len() - i,
{
    if i < 0 || i >= s.len() {
        -1
    } else if s[i] == c {
        i
    } else {
        first_index(s, c, i + 1)
    }
}

pub proof fn lemma_first_index(s: Seq<char>, c: char, i: int)
    requires
        0 <= i,
    ensures
        first_index(s, c, i) == -1 || (i <= first_index(s, c, i) < s.len() && s[first_index(
            s,
            c,
            i,
        )] == c),
        forall|k: int|
            i <= k < s.len() && (first_index(s, c, i) == -1 || k < first_index(s, c, i)) ==> s[k]
                != c,
    decreases s.len() - i,
{
    if i < s.len() && s[i] != c {
        lemma_first_index(s, c, i + 1);
    }
}

/// The type that the text `s` names: `string`, `integer`, `float`, `boolean`, or
/// `array[T]` for a type `T`, with white space allowed around each name and
/// between `array` and `[`. Bounds are left unset.
pub open spec fn field_type_of(s: Seq<char>) -> Option<FieldTypeV>
    decreases s.len(),
{
    let t = trimmed(s);
    if t == "string"@ {
        Some(FieldTypeV::String { min: None, max: None, pattern: None })
    } else if t == "integer"@ {
        Some(FieldTypeV::Integer { min: None, max: None })
    } else if t == "float"@ {
        Some(FieldTypeV::Float { min: None, max: None })
    } else if t == "boolean"@ {
        Some(FieldTypeV::Boolean)
    } else if t.len() >= 5 && t.subrange(0, 5) == "array"@ && t.len() >= 1 && t.last() == ']' {
        let b = first_index(t, '[', 0);
        if 5 <= b && b < t.len() - 1 && trimmed(t.subrange(5, b)).len() == 0 {
            let inner = trimmed(t.subrange(b + 1, t.len() - 1));
            proof {
                lemma_trimmed_len(s);
                lemma_trimmed_len(t.subrange(b + 1, t.len() - 1));
            }
            match field_type_of(inner) {
                Some(it) => Some(FieldTypeV::Array(Box::new(it))),
                None => None,
            }
        } else {
            None
        }
    } else {
        None
    }
}

/// A type without bounds, pattern or table: the types that a name describes fully.
pub open spec fn is_plain(t: FieldTypeV) -> bool
    decreases t,
{
    match t {
        FieldTypeV::Boolean => true,
        FieldTypeV::Integer { min, max } => min is None && max is None,
        FieldTypeV::Float { min, max } => min is None && max is None,
        FieldTypeV::String { min, max, pattern } => min is None && max is None && pattern is None,
        FieldTypeV::Array(inner) => is_plain(*inner),
        FieldTypeV::Table(_) => false,
    }
}

proof fn lemma_trimmed_clean(s: Seq<char>)
    requires
        s.len() > 0,
        !is_white(s[0]),
        !is_white(s[s.len() - 1]),
    ensures
        trimmed(s) == s,
{
    assert(trim_lo(s, 0, s.len() as int) == 0);
    assert(trim_hi(s, 0, s.len() as int) == s.len());
    assert(s.subrange(0, s.len() as int) =~= s);
}

proof fn lemma_name_shape(t: FieldTypeV)
    ensures
        field_type_name(t).len() >= 4,
        !is_white(field_type_name(t)[0]),
        !is_white(field_type_name(t)[field_type_name(t).len() - 1]),
        field_type_name(t)[0] != '[',
    decreases t,
{
    reveal_strlit("boolean");
    reveal_strlit("integer");
    reveal_strlit("float");
    reveal_strlit("string");
    reveal_strlit("array[");
    reveal_strlit("]");
    reveal_strlit("table");
    match t {
        FieldTypeV::Array(inner) => {
            lemma_name_shape(*inner);
            let n = field_type_name(*inner);
            let full = "array["@ + n + "]"@;
            assert(full[0] == 'a');
            assert(full[full.len() - 1] == ']');
        },
        _ => {},
    }
}

/// Reading back the name of a plain type gives the type: `from_str(t.name())`
/// is `t`.
pub proof fn lemma_name_round_trip(t: FieldTypeV)
    requires
        is_plain(t),
    ensures
        field_type_of(field_type_name(t)) == Some(t),
    decreases t,
{
    reveal_strlit("boolean");
    reveal_strlit("integer");
    reveal_strlit("float");
    reveal_strlit("string");
    reveal_strlit("array[");
    reveal_strlit("array");
    reveal_strlit("]");
    lemma_name_shape(t);
    let name = field_type_name(t);
    lemma_trimmed_clean(name);
    match t {
        FieldTypeV::Array(inner) => {
            lemma_name_shape(*inner);
            lemma_name_round_trip(*inner);
            let n = field_type_name(*inner);
            assert(name == "array["@ + n + "]"@);
            assert(name.len() == n.len() + 7);
            assert(name != "string"@);
            assert(name != "integer"@);
            assert(name != "float"@);
            assert(name != "boolean"@);
            assert(name.subrange(0, 5) =~= "array"@);
            assert(name[5] == '[');
            lemma_first_index(name, '[', 0);
            let b = first_index(name, '[', 0);
            assert(name[0] == 'a' && name[1] == 'r' && name[2] == 'r' && name[3] == 'a' && name[4]
                == 'y');
            assert(b == 5);
            assert(name.subrange(5, 5).len() == 0);
            assert(trimmed(name.subrange(5, 5)) =~= Seq::<char>::empty());
            assert(name.subrange(6, name.len() - 1) =~= n);
            lemma_trimmed_clean(n);
        },
        FieldTypeV::Boolean => {
            assert(name != "string"@);
            assert(name != "integer"@);
            assert(name != "float"@);
        },
        FieldTypeV::Integer { .. } => {
            assert(name != "string"@);
        },
        FieldTypeV::Float { .. } => {
            assert(name != "string"@);
            assert(name != "integer"@);
        },
        _ => {},
    }
}

// ---------------------------------------------------------------- text helpers

/// The characters of `s`.
fn chars_of(s: &str) -> (r: Vec<char>)
    ensures
        r@ == s@,
{
    let n = s.unicode_len();
    let mut r: Vec<char> = Vec::new();
    let mut i: usize = 0;
    while i < n
        invariant
            n == s@.len(),
            i <= n,
            r@ == s@.subrange(0, i as int),
        decreases n - i,
    {
        let c = s.get_char(i);
        proof {
            assert(s@.subrange(0, i + 1) =~= s@.subrange(0, i as int).push(c));
        }
        r.push(c);
        i = i + 1;
    }
    proof {
        assert(s@.subrange(0, n as int) =~= s@);
    }
    r
}

/// The characters of `c` from `lo` up to `hi`.
fn slice_of(c: &Vec<char>, lo: usize, hi: usize) -> (r: Vec<char>)
    requires
        lo <= hi <= c.len(),
    ensures
        r@ == c@.subrange(lo as int, hi as int),
{
    let mut r: Vec<char> = Vec::new();
    let mut i = lo;
    while i < hi
        invariant
            lo <= i <= hi <= c.len(),
            r@ == c@.subrange(lo as int, i as int),
        decreases hi - i,
    {
        proof {
            assert(c@.subrange(lo as int, i + 1) =~= c@.subrange(lo as int, i as int).push(c@[i as int]));
        }
        r.push(c[i]);
        i = i + 1;
    }
    r
}

/// Whether `c` is white space in the sense of `char::is_whitespace`.
pub(crate) fn is_whitespace(c: char) -> (r: bool)
    ensures
        r == is_white(c),
{
    let n = c as u32;
    (0x9 <= n && n <= 0xd) || n == 0x20 || n == 0x85 || n == 0xa0 || n == 0x1680 || (0x2000 <= n
        && n <= 0x200a) || n == 0x2028 || n == 0x2029 || n == 0x202f || n == 0x205f || n == 0x3000
}

/// `c` without white space at either end.
fn trim_chars(c: &Vec<char>) -> (r: Vec<char>)
    ensures
        r@ == trimmed(c@),
{
    let n = c.len();
    let mut a: usize = 0;
    while a < n && is_whitespace(c[a])
        invariant
            n == c@.len(),
            a <= n,
            trim_lo(c@, 0, n as int) == trim_lo(c@, a as int, n as int),
        decreases n - a,
    {
        a = a + 1;
    }
    let mut b: usize = n;
    while b > a && is_whitespace(c[b - 1])
        invariant
            n == c@.len(),
            a <= b <= n,
            trim_lo(c@, 0, n as int) == a,
            trim_hi(c@, a as int, n as int) == trim_hi(c@, a as int, b as int),
        decreases b - a,
    {
        b = b - 1;
    }
    slice_of(c, a, b)
}

/// Whether `c` holds exactly the characters of `lit`.
fn chars_are(c: &Vec<char>, lit: &str) -> (r: bool)
    ensures
        r == (c@ == lit@),
{
    let n = lit.unicode_len();
    if c.len() != n {
        return false;
    }
    let mut i: usize = 0;
    while i < n
        invariant
            n == lit@.len(),
            n == c.len(),
            i <= n,
            forall|k: int| 0 <= k < i ==> c@[k] == lit@[k],
        decreases n - i,
    {
        if c[i] != lit.get_char(i) {
            return false;
        }
        i = i + 1;
    }
    proof {
        assert(c@ =~= lit@);
    }
    true
}

/// The index of the first `x` in `c`, if there is one.
fn find_char(c: &Vec<char>, x: char) -> (r: Option<usize>)
    ensures
        match r {
            Some(i) => first_index(c@, x, 0) == i,
            None => first_index(c@, x, 0) == -1,
        },
{
    let mut i: usize = 0;
    while i < c.len()
        invariant
            i <= c.len(),
            first_index(c@, x, 0) == first_index(c@, x, i as int),
        decreases c.len() - i,
    {
        if c[i] == x {
            return Some(i);
        }
        i = i + 1;
    }
    None
}

fn type_of_chars(s: &Vec<char>) -> (r: Option<FieldType>)
    ensures
        match r {
            Some(t) => field_type_of(s@) == Some(t@),
            None => field_type_of(s@) is None,
        },
    decreases s.len(),
{
    let t = trim_chars(s);
    if chars_are(&t, "string") {
        return Some(FieldType::String { min: None, max: None, pattern: None });
    }
    if chars_are(&t, "integer") {
        return Some(FieldType::Integer { min: None, max: None });
    }
    if chars_are(&t, "float") {
        return Some(FieldType::Float { min: None, max: None });
    }
    if chars_are(&t, "boolean") {
        return Some(FieldType::Boolean);
    }
    if t.len() < 5 || t.len() < 1 {
        return None;
    }
    let head = slice_of(&t, 0, 5);
    if !chars_are(&head, "array") || t[t.len() - 1] != ']' {
        return None;
    }
    let b = match find_char(&t, '[') {
        Some(b) => b,
        None => {
            return None;
        },
    };
    if b < 5 || b >= t.len() - 1 {
        return None;
    }
    let gap = trim_chars(&slice_of(&t, 5, b));
    if gap.len() != 0 {
        return None;
    }
    let inner = trim_chars(&slice_of(&t, b + 1, t.len() - 1));
    proof {
        lemma_trimmed_len(s@);
        lemma_trimmed_len(t@.subrange(b + 1, t.len() - 1));
    }
    match type_of_chars(&inner) {
        Some(it) => Some(FieldType::Array(Box::new(it))),
        None => None,
    }
}

impl FieldType {
    /// The type that `s` names; see [`field_type_of`].
    pub fn from_str(s: &str) -> (r: Option<FieldType>)
        ensures
            match r {
                Some(t) => field_type_of(s@) == Some(t@),
                None => field_type_of(s@) is None,
            },
    {
        let c = chars_of(s);
        type_of_chars(&c)
    }

    /// The name of the type.
    pub fn name(&self) -> (r: String)
        ensures
            r@ == field_type_name(self@),
        decreases self,
    {
        match self {
            FieldType::Boolean => String::from_str("boolean"),
            FieldType::Integer { .. } => String::from_str("integer"),
            FieldType::Float { .. } => String::from_str("float"),
            FieldType::String { .. } => String::from_str("string"),
            FieldType::Array(inner) => {
                let mut s = String::from_str("array[");
                let n = inner.name();
                s.append(n.as_str());
                s.append("]");
                s
            },
            FieldType::Table(_) => String::from_str("table"),
        }
    }
}

} // verus!
