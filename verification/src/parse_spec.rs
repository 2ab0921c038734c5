//! The grammar of a document, stated over its tokens.
//!
//! Positions are indices into the token sequence. Each rule states the value it
//! reads and where reading goes on, or the error the parser reports.
//!
//! A statement is a `key = value` line, a `[table]` header, or an
//! `[[array of tables]]` header, written as two `[` tokens in a row and closed by
//! two `]` tokens. A `[` after `=` opens an array; a `{` opens an inline table of
//! `key = value` pairs separated by commas. A header only names the table that
//! later keys go to; a `[[...]]` header also appends an empty table to its array.
use vstd::prelude::*;
use crate::config_error::ConfigErrorV;
use crate::token::{SpannedTokenV, TokenKindV, kind_debug};
use crate::config_get_error::ConfigGetErrorV;
use crate::toml_value::{TableV, TomlValueV, lemma_key_index, lemma_set_then_get, lemma_set_well_keyed, lemma_well_keyed_array, lemma_well_keyed_table, lookup, table_get, table_set, well_keyed};

verus! {

pub open spec fn is_blank(k: TokenKindV) -> bool {
    k is NewLine || k is Comment
}

/// The first position from `i` on that does not hold a newline or a comment.
pub open spec fn skip_blank(toks: Seq<SpannedTokenV>, i: int) -> int
    decreases toks.len() - i,
{
    if 0 <= i < toks.len() && is_blank(toks[i].kind) {
        skip_blank(toks, i + 1)
    } else {
        i
    }
}

pub proof fn lemma_skip_blank(toks: Seq<SpannedTokenV>, i: int)
    requires
        0 <= i <= toks.len(),
    ensures
        i <= skip_blank(toks, i) <= toks.len(),
        skip_blank(toks, i) < toks.len() ==> !is_blank(toks[skip_blank(toks, i)].kind),
        skip_blank(toks, i) == i <==> !(i < toks.len() && is_blank(toks[i].kind)),
    decreases toks.len() - i,
{
    if i < toks.len() && is_blank(toks[i].kind) {
        lemma_skip_blank(toks, i + 1);
    }
}

pub open spec fn expected(line: nat, col: nat, what: Seq<char>, found: Seq<char>) -> ConfigErrorV {
    ConfigErrorV::ExpectedToken { line, col, expected: what, found }
}

pub open spec fn unexpected(line: nat, col: nat, what: Seq<char>, found: Seq<char>) -> ConfigErrorV {
    ConfigErrorV::UnexpectedCharacter { line, col, expected: what, found }
}

/// The key that a token names, if it is a bare word or a string.
pub open spec fn key_of(k: TokenKindV) -> Option<Seq<char>> {
    match k {
        TokenKindV::Identifier(s) => Some(s),
        TokenKindV::StringLit(s) => Some(s),
        _ => None,
    }
}

/// The value that starts at token `i`, and the position after it.
pub open spec fn value_at(toks: Seq<SpannedTokenV>, i: int) -> Result<(TomlValueV, int), ConfigErrorV>
    decreases toks.len() - i, 0int,
{
    if i < 0 || i >= toks.len() {
        Err(expected(0, 0, "value"@, "end of input"@))
    } else {
        let t = toks[i];
        match t.kind {
            TokenKindV::StringLit(s) => Ok((TomlValueV::String(s), i + 1)),
            TokenKindV::Integer(n) => Ok((TomlValueV::Integer(n), i + 1)),
            TokenKindV::Float(f) => Ok((TomlValueV::Float(f), i + 1)),
            TokenKindV::Boolean(b) => Ok((TomlValueV::Boolean(b), i + 1)),
            TokenKindV::LBracket => array_items(toks, i, i + 1, false, seq![]),
            TokenKindV::LBrace => inline_entries(toks, i, i + 1, false, seq![]),
            _ => Err(
                expected(
                    t.line,
                    t.col,
                    "value (string, integer, float, or boolean)"@,
                    kind_debug(t.kind),
                ),
            ),
        }
    }
}

/// The rest of an array opened by token `open`, read from `i`; `items` were read
/// already, and a comma is due when `expect_comma` holds.
pub open spec fn array_items(
    toks: Seq<SpannedTokenV>,
    open: int,
    i: int,
    expect_comma: bool,
    items: Seq<TomlValueV>,
) -> Result<(TomlValueV, int), ConfigErrorV>
    decreases toks.len() - i, 1int,
{
    if i < 0 || open < 0 || open >= toks.len() || i >= toks.len() {
        Err(
            unexpected(
                if 0 <= open < toks.len() { toks[open].line } else { 0 },
                if 0 <= open < toks.len() { toks[open].col } else { 0 },
                "]"@,
                "end of input"@,
            ),
        )
    } else {
        let t = toks[i];
        proof {
            lemma_skip_blank(toks, i);
        }
        let j = skip_blank(toks, i);
        if expect_comma {
            match t.kind {
                TokenKindV::Comma => array_items(toks, open, j + 1, false, items),
                TokenKindV::RBracket => Ok((TomlValueV::Array(items), j + 1)),
                _ => Err(expected(t.line, t.col, ","@, kind_debug(toks[open].kind))),
            }
        } else {
            match t.kind {
                TokenKindV::RBracket => Ok((TomlValueV::Array(items), j + 1)),
                _ => match value_at(toks, j) {
                    Err(e) => Err(e),
                    Ok((v, e)) => if i < e <= toks.len() {
                        array_items(toks, open, e, true, items.push(v))
                    } else {
                        Err(expected(0, 0, "value"@, "end of input"@))
                    },
                },
            }
        }
    }
}

/// The rest of an inline table opened by token `open`, read from `i`; `entries`
/// were read already, and a comma is due when `expect_comma` holds.
pub open spec fn inline_entries(
    toks: Seq<SpannedTokenV>,
    open: int,
    i: int,
    expect_comma: bool,
    entries: TableV,
) -> Result<(TomlValueV, int), ConfigErrorV>
    decreases toks.len() - i, 1int,
{
    if i < 0 || open < 0 || open >= toks.len() || i >= toks.len() {
        Err(
            unexpected(
                if 0 <= open < toks.len() { toks[open].line } else { 0 },
                if 0 <= open < toks.len() { toks[open].col } else { 0 },
                "}"@,
                "end of input"@,
            ),
        )
    } else {
        let t = toks[i];
        if expect_comma {
            match t.kind {
                TokenKindV::Comma => inline_entries(toks, open, i + 1, false, entries),
                TokenKindV::RBrace => Ok((TomlValueV::Table(entries), i + 1)),
                _ => Err(expected(t.line, t.col, "',' or '}'"@, kind_debug(t.kind))),
            }
        } else if t.kind is RBrace {
            Ok((TomlValueV::Table(entries), i + 1))
        } else if key_of(t.kind) is Some {
            let key = key_of(t.kind)->0;
            if i + 1 >= toks.len() {
                Err(ConfigErrorV::MissingValue { line: t.line, col: t.col, key })
            } else if !(toks[i + 1].kind is Equal) {
                Err(expected(toks[i + 1].line, toks[i + 1].col, "="@, kind_debug(toks[i + 1].kind)))
            } else {
                match value_at(toks, i + 2) {
                    Err(e) => Err(e),
                    Ok((v, e)) => if i < e <= toks.len() {
                        inline_entries(toks, open, e, true, table_set(entries, key, v))
                    } else {
                        Err(expected(0, 0, "value"@, "end of input"@))
                    },
                }
            }
        } else {
            Err(expected(t.line, t.col, "key or '}'"@, kind_debug(t.kind)))
        }
    }
}

/// The dotted path of a table header read from `i`, and the position after the
/// header. `double` is set for `[[...]]`; `line` and `col` are those of the last
/// token read, for the error at the end of the input.
pub open spec fn header_path(
    toks: Seq<SpannedTokenV>,
    i: int,
    expect_dot: bool,
    path: Seq<Seq<char>>,
    line: nat,
    col: nat,
    double: bool,
) -> Result<(Seq<Seq<char>>, int), ConfigErrorV>
    decreases toks.len() - i,
{
    if i < 0 || i >= toks.len() {
        Err(expected(line, col, if double { "']]'"@ } else { "']'"@ }, "end of the file"@))
    } else {
        let t = toks[i];
        if expect_dot {
            if double && t.kind is RBracket && i + 1 < toks.len() && toks[i + 1].kind is RBracket {
                Ok((path, i + 2))
            } else if !double && t.kind is RBracket {
                Ok((path, i + 1))
            } else if t.kind is Dot {
                header_path(toks, i + 1, false, path, t.line, t.col, double)
            } else {
                Err(
                    expected(
                        t.line,
                        t.col,
                        if double { "'.' or ']]'"@ } else { "'.' or ']'"@ },
                        kind_debug(t.kind),
                    ),
                )
            }
        } else if key_of(t.kind) is Some {
            header_path(toks, i + 1, true, path.push(key_of(t.kind)->0), t.line, t.col, double)
        } else {
            Err(expected(t.line, t.col, "string or identifier"@, kind_debug(t.kind)))
        }
    }
}

/// The table that a path step enters: the existing one, or the last table of an
/// array of tables, or a new empty table when the key is absent.
pub open spec fn step_into(t: TableV, k: Seq<char>) -> Option<TableV> {
    match table_get(t, k) {
        None => Some(seq![]),
        Some(TomlValueV::Table(inner)) => Some(inner),
        Some(TomlValueV::Array(a)) => if a.len() > 0 && a.last() is Table {
            Some(a.last()->Table_0)
        } else {
            None
        },
        Some(_) => None,
    }
}

/// `t` with the table entered by key `k` replaced by `inner`.
pub open spec fn step_back(t: TableV, k: Seq<char>, inner: TableV) -> TableV {
    match table_get(t, k) {
        Some(TomlValueV::Array(a)) => table_set(
            t,
            k,
            TomlValueV::Array(a.update(a.len() - 1, TomlValueV::Table(inner))),
        ),
        _ => table_set(t, k, TomlValueV::Table(inner)),
    }
}

/// The error met while walking down `path` to assign a key, if any.
pub open spec fn assign_path_error(t: TableV, path: Seq<Seq<char>>) -> Option<ConfigErrorV>
    decreases path.len(),
{
    if path.len() == 0 {
        None
    } else {
        match step_into(t, path[0]) {
            Some(inner) => assign_path_error(inner, path.drop_first()),
            None => match table_get(t, path[0]) {
                Some(TomlValueV::Array(_)) => Some(
                    unexpected(0, 0, "an array of tables"@, "an empty or non-table array"@),
                ),
                _ => Some(unexpected(0, 0, "a table"@, "a conflicting value"@)),
            },
        }
    }
}

/// `t` with `key` bound to `v` in the table that `path` leads to.
pub open spec fn assign_at(t: TableV, path: Seq<Seq<char>>, key: Seq<char>, v: TomlValueV) -> TableV
    decreases path.len(),
{
    if path.len() == 0 {
        table_set(t, key, v)
    } else {
        match step_into(t, path[0]) {
            Some(inner) => step_back(t, path[0], assign_at(inner, path.drop_first(), key, v)),
            None => t,
        }
    }
}

/// `t` with a new empty table appended to the array of tables that `path` names.
pub open spec fn push_array_table(t: TableV, path: Seq<Seq<char>>) -> Result<TableV, ConfigErrorV>
    decreases path.len(),
{
    if path.len() == 0 {
        Ok(t)
    } else if path.len() == 1 {
        match table_get(t, path[0]) {
            None => Ok(table_set(t, path[0], TomlValueV::Array(seq![TomlValueV::Table(seq![])]))),
            Some(TomlValueV::Array(a)) => Ok(
                table_set(t, path[0], TomlValueV::Array(a.push(TomlValueV::Table(seq![])))),
            ),
            Some(_) => Err(unexpected(0, 0, "an array"@, "a statically defined table or value"@)),
        }
    } else {
        match step_into(t, path[0]) {
            Some(inner) => match push_array_table(inner, path.drop_first()) {
                Ok(r) => Ok(step_back(t, path[0], r)),
                Err(e) => Err(e),
            },
            None => Err(unexpected(0, 0, "valid array table"@, "invalid array table"@)),
        }
    }
}

/// The table that `path` leads to from `t`: into a table, or into the last table
/// of an array of tables, as assignments go. Nothing when a step finds no such table.
pub open spec fn descend(t: TableV, path: Seq<Seq<char>>) -> Option<TableV>
    decreases path.len(),
{
    if path.len() == 0 {
        Some(t)
    } else {
        match table_get(t, path[0]) {
            Some(TomlValueV::Table(inner)) => descend(inner, path.drop_first()),
            Some(TomlValueV::Array(a)) => if a.len() > 0 && a.last() is Table {
                descend(a.last()->Table_0, path.drop_first())
            } else {
                None
            },
            _ => None,
        }
    }
}

proof fn lemma_step_back_descend(t: TableV, k: Seq<char>, inner: TableV, x: TableV)
    requires
        step_into(t, k) == Some(inner),
    ensures
        match table_get(step_back(t, k, x), k) {
            Some(TomlValueV::Table(y)) => y == x,
            Some(TomlValueV::Array(a)) => a.len() > 0 && a.last() == TomlValueV::Table(x),
            _ => false,
        },
{
    match table_get(t, k) {
        Some(TomlValueV::Array(a)) => {
            let a2 = a.update(a.len() - 1, TomlValueV::Table(x));
            lemma_set_then_get(t, k, TomlValueV::Array(a2), k);
        },
        _ => {
            lemma_set_then_get(t, k, TomlValueV::Table(x), k);
        },
    }
}

/// After `key = v` is read under the table header `path`, walking `path` down from
/// the root finds a table in which `key` holds `v`.
pub proof fn lemma_assign_then_get(t: TableV, path: Seq<Seq<char>>, key: Seq<char>, v: TomlValueV)
    requires
        assign_path_error(t, path) is None,
    ensures
        descend(assign_at(t, path, key, v), path) matches Some(d) && table_get(d, key) == Some(v),
    decreases path.len(),
{
    if path.len() == 0 {
        lemma_set_then_get(t, key, v, key);
    } else {
        let inner = step_into(t, path[0])->0;
        lemma_assign_then_get(inner, path.drop_first(), key, v);
        let x = assign_at(inner, path.drop_first(), key, v);
        lemma_step_back_descend(t, path[0], inner, x);
    }
}

/// A `[[path]]` header appends one empty table to the array of tables at `path`:
/// the array ends with it, and it holds what it held before.
pub proof fn lemma_push_array_table(t: TableV, path: Seq<Seq<char>>)
    requires
        path.len() > 0,
        push_array_table(t, path) is Ok,
    ensures
        ({
            let r = push_array_table(t, path)->Ok_0;
            let prefix = path.drop_last();
            let last = path.last();
            &&& descend(r, prefix) matches Some(d)
            &&& table_get(d, last) matches Some(TomlValueV::Array(a))
            &&& (descend(t, prefix) matches Some(d0) ==> match table_get(d0, last) {
                Some(TomlValueV::Array(a0)) => a == a0.push(TomlValueV::Table(seq![])),
                _ => a == seq![TomlValueV::Table(seq![])],
            })
        }),
    decreases path.len(),
{
    let r = push_array_table(t, path)->Ok_0;
    if path.len() == 1 {
        assert(path.drop_last() =~= Seq::<Seq<char>>::empty());
        match table_get(t, path[0]) {
            None => {
                lemma_set_then_get(
                    t,
                    path[0],
                    TomlValueV::Array(seq![TomlValueV::Table(seq![])]),
                    path[0],
                );
            },
            Some(TomlValueV::Array(a)) => {
                lemma_set_then_get(
                    t,
                    path[0],
                    TomlValueV::Array(a.push(TomlValueV::Table(seq![]))),
                    path[0],
                );
            },
            Some(_) => {},
        }
    } else {
        let inner = step_into(t, path[0])->0;
        let rest = path.drop_first();
        assert(rest.drop_last() =~= path.drop_last().drop_first());
        assert(rest.last() == path.last());
        lemma_push_array_table(inner, rest);
        let x = push_array_table(inner, rest)->Ok_0;
        lemma_step_back_descend(t, path[0], inner, x);
        assert(path.drop_last()[0] == path[0]);
        match table_get(t, path[0]) {
            Some(TomlValueV::Table(i0)) => {
                assert(inner == i0);
            },
            Some(TomlValueV::Array(a)) => {},
            _ => {
                assert(descend(t, path.drop_last()) is None);
            },
        }
    }
}

/// A `key = value` line whose key was read just before `i`, under table `path` of `root`.
pub open spec fn key_value(
    toks: Seq<SpannedTokenV>,
    i: int,
    path: Seq<Seq<char>>,
    key: Seq<char>,
    root: TableV,
) -> Result<(TableV, int), ConfigErrorV> {
    match assign_path_error(root, path) {
        Some(e) => Err(e),
        None => if i < 0 || i >= toks.len() {
            Err(ConfigErrorV::MissingValue { line: 0, col: 1, key })
        } else if !(toks[i].kind is Equal) {
            Err(expected(toks[i].line, toks[i].col, "="@, kind_debug(toks[i].kind)))
        } else {
            match value_at(toks, i + 1) {
                Err(e) => Err(e),
                Ok((v, e)) => Ok((assign_at(root, path, key, v), e)),
            }
        },
    }
}

/// The document from token `i` on, with `path` the current table and `root` what
/// was read so far.
pub open spec fn document(
    toks: Seq<SpannedTokenV>,
    i: int,
    path: Seq<Seq<char>>,
    root: TableV,
) -> Result<TableV, ConfigErrorV>
    decreases toks.len() - i,
{
    if i < 0 || i >= toks.len() {
        Ok(root)
    } else {
        let t = toks[i];
        if is_blank(t.kind) {
            document(toks, i + 1, path, root)
        } else if t.kind is LBracket {
            if i + 1 < toks.len() && toks[i + 1].kind is LBracket {
                match header_path(toks, i + 2, false, seq![], 0, 0, true) {
                    Err(e) => Err(e),
                    Ok((p, e)) => match push_array_table(root, p) {
                        Err(x) => Err(x),
                        Ok(r) => if i < e <= toks.len() {
                            document(toks, e, p, r)
                        } else {
                            Ok(r)
                        },
                    },
                }
            } else {
                match header_path(toks, i + 1, false, seq![], 0, 0, false) {
                    Err(e) => Err(e),
                    Ok((p, e)) => if i < e <= toks.len() {
                        document(toks, e, p, root)
                    } else {
                        Ok(root)
                    },
                }
            }
        } else if key_of(t.kind) is Some {
            match key_value(toks, i + 1, path, key_of(t.kind)->0, root) {
                Err(e) => Err(e),
                Ok((r, e)) => if i < e <= toks.len() {
                    document(toks, e, path, r)
                } else {
                    Ok(r)
                },
            }
        } else {
            Err(unexpected(t.line, t.col, "key, table header, or comment"@, kind_debug(t.kind)))
        }
    }
}


/// The value that a scalar token stands for.
pub open spec fn scalar_of(k: TokenKindV) -> Option<TomlValueV> {
    match k {
        TokenKindV::StringLit(s) => Some(TomlValueV::String(s)),
        TokenKindV::Integer(n) => Some(TomlValueV::Integer(n)),
        TokenKindV::Float(f) => Some(TomlValueV::Float(f)),
        TokenKindV::Boolean(b) => Some(TomlValueV::Boolean(b)),
        _ => None,
    }
}

/// The document `key = value`, with a scalar value, is the table that binds `key`
/// to the value, and reading `key` from it gives the value back.
pub proof fn lemma_single_pair(toks: Seq<SpannedTokenV>)
    requires
        toks.len() == 3,
        key_of(toks[0].kind) is Some,
        toks[1].kind is Equal,
        scalar_of(toks[2].kind) is Some,
    ensures
        ({
            let key = key_of(toks[0].kind)->0;
            let v = scalar_of(toks[2].kind)->0;
            &&& document(toks, 0, seq![], seq![]) == Ok::<TableV, ConfigErrorV>(seq![(key, v)])
            &&& lookup(TomlValueV::Table(seq![(key, v)]), key) == Ok::<
                TomlValueV,
                ConfigGetErrorV,
            >(v)
        }),
{
    let key = key_of(toks[0].kind)->0;
    let v = scalar_of(toks[2].kind)->0;
    let empty: TableV = seq![];
    assert(value_at(toks, 2) == Ok::<(TomlValueV, int), ConfigErrorV>((v, 3)));
    assert(assign_path_error(empty, seq![]) is None);
    assert(assign_at(empty, seq![], key, v) == table_set(empty, key, v));
    lemma_key_index(empty, key);
    assert(table_set(empty, key, v) =~= seq![(key, v)]);
    assert(key_value(toks, 1, seq![], key, empty) == Ok::<(TableV, int), ConfigErrorV>(
        (seq![(key, v)], 3),
    ));
    assert(document(toks, 3, seq![], seq![(key, v)]) == Ok::<TableV, ConfigErrorV>(
        seq![(key, v)],
    ));
    lemma_set_then_get(empty, key, v, key);
}

// ---------------------------------------------------------------- no key twice

proof fn lemma_get_well_keyed(t: TableV, k: Seq<char>)
    requires
        well_keyed(TomlValueV::Table(t)),
    ensures
        table_get(t, k) matches Some(w) ==> well_keyed(w),
{
    lemma_well_keyed_table(t);
    lemma_key_index(t, k);
}

proof fn lemma_empty_well_keyed()
    ensures
        well_keyed(TomlValueV::Table(seq![])),
{
    lemma_well_keyed_table(seq![]);
}

proof fn lemma_value_at_well_keyed(toks: Seq<SpannedTokenV>, i: int)
    ensures
        value_at(toks, i) matches Ok((v, _)) ==> well_keyed(v),
    decreases toks.len() - i, 0int,
{
    if 0 <= i < toks.len() {
        match toks[i].kind {
            TokenKindV::LBracket => {
                lemma_well_keyed_array(seq![]);
                lemma_array_items_well_keyed(toks, i, i + 1, false, seq![]);
            },
            TokenKindV::LBrace => {
                lemma_empty_well_keyed();
                lemma_inline_entries_well_keyed(toks, i, i + 1, false, seq![]);
            },
            _ => {},
        }
    }
}

proof fn lemma_array_items_well_keyed(
    toks: Seq<SpannedTokenV>,
    open: int,
    i: int,
    expect_comma: bool,
    items: Seq<TomlValueV>,
)
    requires
        well_keyed(TomlValueV::Array(items)),
    ensures
        array_items(toks, open, i, expect_comma, items) matches Ok((v, _)) ==> well_keyed(v),
    decreases toks.len() - i, 1int,
{
    if !(i < 0 || open < 0 || open >= toks.len() || i >= toks.len()) {
        let t = toks[i];
        lemma_skip_blank(toks, i);
        let j = skip_blank(toks, i);
        if expect_comma {
            match t.kind {
                TokenKindV::Comma => {
                    lemma_array_items_well_keyed(toks, open, j + 1, false, items);
                },
                _ => {},
            }
        } else {
            match t.kind {
                TokenKindV::RBracket => {},
                _ => {
                    lemma_value_at_well_keyed(toks, j);
                    match value_at(toks, j) {
                        Ok((v, e)) => {
                            if i < e <= toks.len() {
                                lemma_well_keyed_array(items);
                                lemma_well_keyed_array(items.push(v));
                                assert forall|k: int| 0 <= k < items.push(v).len() implies #[trigger] well_keyed(
                                    items.push(v)[k],
                                ) by {
                                    if k < items.len() {
                                        assert(items.push(v)[k] == items[k]);
                                    }
                                }
                                lemma_array_items_well_keyed(toks, open, e, true, items.push(v));
                            }
                        },
                        Err(_) => {},
                    }
                },
            }
        }
    }
}

proof fn lemma_inline_entries_well_keyed(
    toks: Seq<SpannedTokenV>,
    open: int,
    i: int,
    expect_comma: bool,
    entries: TableV,
)
    requires
        well_keyed(TomlValueV::Table(entries)),
    ensures
        inline_entries(toks, open, i, expect_comma, entries) matches Ok((v, _)) ==> well_keyed(v),
    decreases toks.len() - i, 1int,
{
    if !(i < 0 || open < 0 || open >= toks.len() || i >= toks.len()) {
        let t = toks[i];
        if expect_comma {
            match t.kind {
                TokenKindV::Comma => {
                    lemma_inline_entries_well_keyed(toks, open, i + 1, false, entries);
                },
                _ => {},
            }
        } else if !(t.kind is RBrace) && key_of(t.kind) is Some && i + 1 < toks.len()
            && toks[i + 1].kind is Equal {
            let key = key_of(t.kind)->0;
            lemma_value_at_well_keyed(toks, i + 2);
            match value_at(toks, i + 2) {
                Ok((v, e)) => {
                    if i < e <= toks.len() {
                        lemma_set_well_keyed(entries, key, v);
                        lemma_inline_entries_well_keyed(toks, open, e, true, table_set(entries, key, v));
                    }
                },
                Err(_) => {},
            }
        }
    }
}

proof fn lemma_step_into_well_keyed(t: TableV, k: Seq<char>)
    requires
        well_keyed(TomlValueV::Table(t)),
    ensures
        step_into(t, k) matches Some(inner) ==> well_keyed(TomlValueV::Table(inner)),
{
    lemma_get_well_keyed(t, k);
    lemma_empty_well_keyed();
    match table_get(t, k) {
        Some(TomlValueV::Array(a)) => {
            lemma_well_keyed_array(a);
            if a.len() > 0 {
                assert(well_keyed(a[a.len() - 1]));
            }
        },
        _ => {},
    }
}

proof fn lemma_step_back_well_keyed(t: TableV, k: Seq<char>, x: TableV)
    requires
        well_keyed(TomlValueV::Table(t)),
        well_keyed(TomlValueV::Table(x)),
        step_into(t, k) is Some,
    ensures
        well_keyed(TomlValueV::Table(step_back(t, k, x))),
{
    lemma_get_well_keyed(t, k);
    match table_get(t, k) {
        Some(TomlValueV::Array(a)) => {
            let a2 = a.update(a.len() - 1, TomlValueV::Table(x));
            lemma_well_keyed_array(a);
            lemma_well_keyed_array(a2);
            assert forall|q: int| 0 <= q < a2.len() implies #[trigger] well_keyed(a2[q]) by {
                if q != a.len() - 1 {
                    assert(a2[q] == a[q]);
                }
            }
            lemma_set_well_keyed(t, k, TomlValueV::Array(a2));
        },
        _ => {
            lemma_set_well_keyed(t, k, TomlValueV::Table(x));
        },
    }
}

proof fn lemma_assign_well_keyed(t: TableV, path: Seq<Seq<char>>, key: Seq<char>, v: TomlValueV)
    requires
        well_keyed(TomlValueV::Table(t)),
        well_keyed(v),
        assign_path_error(t, path) is None,
    ensures
        well_keyed(TomlValueV::Table(assign_at(t, path, key, v))),
    decreases path.len(),
{
    if path.len() == 0 {
        lemma_set_well_keyed(t, key, v);
    } else {
        lemma_step_into_well_keyed(t, path[0]);
        let inner = step_into(t, path[0])->0;
        lemma_assign_well_keyed(inner, path.drop_first(), key, v);
        lemma_step_back_well_keyed(t, path[0], assign_at(inner, path.drop_first(), key, v));
    }
}

proof fn lemma_push_well_keyed(t: TableV, path: Seq<Seq<char>>)
    requires
        well_keyed(TomlValueV::Table(t)),
    ensures
        push_array_table(t, path) matches Ok(r) ==> well_keyed(TomlValueV::Table(r)),
    decreases path.len(),
{
    if path.len() == 1 {
        lemma_empty_well_keyed();
        lemma_get_well_keyed(t, path[0]);
        match table_get(t, path[0]) {
            None => {
                let a = seq![TomlValueV::Table(seq![])];
                lemma_well_keyed_array(a);
                lemma_set_well_keyed(t, path[0], TomlValueV::Array(a));
            },
            Some(TomlValueV::Array(a)) => {
                let a2 = a.push(TomlValueV::Table(seq![]));
                lemma_well_keyed_array(a);
                lemma_well_keyed_array(a2);
                assert forall|q: int| 0 <= q < a2.len() implies #[trigger] well_keyed(a2[q]) by {
                    if q < a.len() {
                        assert(a2[q] == a[q]);
                    }
                }
                lemma_set_well_keyed(t, path[0], TomlValueV::Array(a2));
            },
            Some(_) => {},
        }
    } else if path.len() > 1 {
        lemma_step_into_well_keyed(t, path[0]);
        match step_into(t, path[0]) {
            Some(inner) => {
                lemma_push_well_keyed(inner, path.drop_first());
                match push_array_table(inner, path.drop_first()) {
                    Ok(x) => {
                        lemma_step_back_well_keyed(t, path[0], x);
                    },
                    Err(_) => {},
                }
            },
            None => {},
        }
    }
}

proof fn lemma_document_well_keyed(
    toks: Seq<SpannedTokenV>,
    i: int,
    path: Seq<Seq<char>>,
    root: TableV,
)
    requires
        well_keyed(TomlValueV::Table(root)),
    ensures
        document(toks, i, path, root) matches Ok(r) ==> well_keyed(TomlValueV::Table(r)),
    decreases toks.len() - i,
{
    if 0 <= i < toks.len() {
        let t = toks[i];
        if is_blank(t.kind) {
            lemma_document_well_keyed(toks, i + 1, path, root);
        } else if t.kind is LBracket {
            if i + 1 < toks.len() && toks[i + 1].kind is LBracket {
                match header_path(toks, i + 2, false, seq![], 0, 0, true) {
                    Ok((p, e)) => {
                        lemma_push_well_keyed(root, p);
                        match push_array_table(root, p) {
                            Ok(r) => {
                                if i < e <= toks.len() {
                                    lemma_document_well_keyed(toks, e, p, r);
                                }
                            },
                            Err(_) => {},
                        }
                    },
                    Err(_) => {},
                }
            } else {
                match header_path(toks, i + 1, false, seq![], 0, 0, false) {
                    Ok((p, e)) => {
                        if i < e <= toks.len() {
                            lemma_document_well_keyed(toks, e, p, root);
                        }
                    },
                    Err(_) => {},
                }
            }
        } else if key_of(t.kind) is Some {
            let key = key_of(t.kind)->0;
            if assign_path_error(root, path) is None && i + 1 < toks.len() && toks[i + 1].kind is Equal {
                lemma_value_at_well_keyed(toks, i + 2);
                match value_at(toks, i + 2) {
                    Ok((v, e)) => {
                        lemma_assign_well_keyed(root, path, key, v);
                        if i < e <= toks.len() {
                            lemma_document_well_keyed(toks, e, path, assign_at(root, path, key, v));
                        }
                    },
                    Err(_) => {},
                }
            }
        }
    }
}

/// No key occurs twice in any table of a parsed document, nested tables,
/// inline tables and the tables of arrays included.
pub proof fn lemma_parse_well_keyed(toks: Seq<SpannedTokenV>)
    ensures
        document(toks, 0, seq![], seq![]) matches Ok(r) ==> well_keyed(TomlValueV::Table(r)),
{
    lemma_empty_well_keyed();
    lemma_document_well_keyed(toks, 0, seq![], seq![]);
}

/// The value that a literal token stands for: a string, an integer, a float or a
/// boolean.
pub open spec fn literal_value(k: TokenKindV) -> Option<TomlValueV> {
    match k {
        TokenKindV::StringLit(s) => Some(TomlValueV::String(s)),
        TokenKindV::Integer(n) => Some(TomlValueV::Integer(n)),
        TokenKindV::Float(f) => Some(TomlValueV::Float(f)),
        TokenKindV::Boolean(b) => Some(TomlValueV::Boolean(b)),
        _ => None,
    }
}

/// `kinds` with a comma between each two of them.
pub open spec fn comma_separated(kinds: Seq<TokenKindV>) -> Seq<TokenKindV>
    decreases kinds.len(),
{
    if kinds.len() <= 1 {
        kinds
    } else {
        comma_separated(kinds.drop_last()).push(TokenKindV::Comma).push(kinds.last())
    }
}

/// The tokens of an array of `kinds`: `[`, the kinds separated by commas, one more
/// comma when `trailing` holds, and `]`.
pub open spec fn bracketed(kinds: Seq<TokenKindV>, trailing: bool) -> Seq<TokenKindV> {
    seq![TokenKindV::LBracket] + comma_separated(kinds) + (if trailing {
        seq![TokenKindV::Comma]
    } else {
        seq![]
    }) + seq![TokenKindV::RBracket]
}

proof fn lemma_comma_separated(kinds: Seq<TokenKindV>)
    requires
        kinds.len() >= 1,
    ensures
        comma_separated(kinds).len() == 2 * kinds.len() - 1,
        forall|m: int| 0 <= m < kinds.len() ==> comma_separated(kinds)[2 * m] == #[trigger] kinds[m],
        forall|m: int| 0 <= m < kinds.len() - 1 ==> (#[trigger] comma_separated(kinds)[2 * m + 1]) is Comma,
    decreases kinds.len(),
{
    if kinds.len() > 1 {
        let d = kinds.drop_last();
        lemma_comma_separated(d);
        assert forall|m: int| 0 <= m < kinds.len() implies comma_separated(kinds)[2 * m] == #[trigger] kinds[m] by {
            if m < kinds.len() - 1 {
                assert(d[m] == kinds[m]);
            }
        }
    }
}

proof fn lemma_array_of_literals_from(
    toks: Seq<SpannedTokenV>,
    i: int,
    kinds: Seq<TokenKindV>,
    trailing: bool,
    m: int,
)
    requires
        0 <= i,
        kinds.len() >= 1,
        0 <= m < kinds.len() || (m == kinds.len() && trailing),
        forall|q: int| 0 <= q < kinds.len() ==> (#[trigger] literal_value(kinds[q])) is Some,
        i + 2 * kinds.len() + (if trailing { 1int } else { 0int }) < toks.len(),
        forall|q: int| 0 <= q < kinds.len() ==> toks[i + 1 + 2 * q].kind == #[trigger] kinds[q],
        forall|q: int| 0 <= q < kinds.len() - 1 ==> (#[trigger] toks[i + 2 + 2 * q]).kind is Comma,
        trailing ==> toks[i + 2 * kinds.len()].kind is Comma,
        toks[i + 2 * kinds.len() + (if trailing { 1int } else { 0int })].kind is RBracket,
    ensures
        array_items(
            toks,
            i,
            i + 1 + 2 * m,
            false,
            kinds.take(m).map_values(|k: TokenKindV| literal_value(k)->0),
        ) == Ok::<(TomlValueV, int), ConfigErrorV>(
            (
                TomlValueV::Array(kinds.map_values(|k: TokenKindV| literal_value(k)->0)),
                i + 2 * kinds.len() + (if trailing { 1int } else { 0int }) + 1,
            ),
        ),
    decreases kinds.len() - m,
{
    let n = kinds.len() as int;
    let vals = kinds.map_values(|k: TokenKindV| literal_value(k)->0);
    let p = i + 1 + 2 * m;
    if m == n {
        assert(kinds.take(m).map_values(|k: TokenKindV| literal_value(k)->0) =~= vals);
        assert(toks[p].kind is RBracket);
        assert(skip_blank(toks, p) == p);
    } else {
        let before = kinds.take(m).map_values(|k: TokenKindV| literal_value(k)->0);
        let after = kinds.take(m + 1).map_values(|k: TokenKindV| literal_value(k)->0);
        assert(before.push(vals[m]) =~= after);
        assert(toks[p].kind == kinds[m]);
        assert(literal_value(kinds[m]) is Some);
        assert(skip_blank(toks, p) == p);
        assert(value_at(toks, p) == Ok::<(TomlValueV, int), ConfigErrorV>((vals[m], p + 1)));
        assert(skip_blank(toks, p + 1) == p + 1) by {
            if m < n - 1 {
                assert(toks[i + 2 + 2 * m].kind is Comma);
            } else if trailing {
                assert(toks[i + 2 * n].kind is Comma);
            } else {
                assert(toks[i + 2 * n].kind is RBracket);
            }
        }
        if m < n - 1 {
            assert(toks[i + 2 + 2 * m].kind is Comma);
            lemma_array_of_literals_from(toks, i, kinds, trailing, m + 1);
            assert(array_items(toks, i, p + 1, true, after) == array_items(toks, i, p + 2, false, after));
        } else if trailing {
            assert(toks[i + 2 * n].kind is Comma);
            lemma_array_of_literals_from(toks, i, kinds, trailing, m + 1);
            assert(array_items(toks, i, p + 1, true, after) == array_items(toks, i, p + 2, false, after));
            assert(after =~= vals);
        } else {
            assert(toks[i + 2 * n].kind is RBracket);
            assert(after =~= vals);
        }
    }
}

/// An array of literals reads to those literals in order, whether or not a comma
/// follows the last one: the tokens of `[v1, ..., vn]` and of `[v1, ..., vn,]` both
/// read to the array of `v1` to `vn`, and reading goes on after the `]`.
pub proof fn lemma_array_of_literals(
    toks: Seq<SpannedTokenV>,
    i: int,
    kinds: Seq<TokenKindV>,
    trailing: bool,
)
    requires
        0 <= i,
        kinds.len() >= 1,
        forall|q: int| 0 <= q < kinds.len() ==> (#[trigger] literal_value(kinds[q])) is Some,
        i + bracketed(kinds, trailing).len() <= toks.len(),
        forall|q: int|
            0 <= q < bracketed(kinds, trailing).len() ==> toks[i + q].kind == #[trigger] bracketed(
                kinds,
                trailing,
            )[q],
    ensures
        value_at(toks, i) == Ok::<(TomlValueV, int), ConfigErrorV>(
            (
                TomlValueV::Array(kinds.map_values(|k: TokenKindV| literal_value(k)->0)),
                i + bracketed(kinds, trailing).len(),
            ),
        ),
{
    let n = kinds.len() as int;
    let b = bracketed(kinds, trailing);
    let t: int = if trailing { 1 } else { 0 };
    lemma_comma_separated(kinds);
    assert(b.len() == 2 * n + 1 + t);
    assert(toks[i].kind == b[0]);
    assert forall|q: int| 0 <= q < n implies toks[i + 1 + 2 * q].kind == #[trigger] kinds[q] by {
        assert(toks[i + (1 + 2 * q)].kind == b[1 + 2 * q]);
        assert(b[1 + 2 * q] == comma_separated(kinds)[2 * q]);
    }
    assert forall|q: int| 0 <= q < n - 1 implies (#[trigger] toks[i + 2 + 2 * q]).kind is Comma by {
        assert(toks[i + (2 + 2 * q)].kind == b[2 + 2 * q]);
        assert(b[2 + 2 * q] == comma_separated(kinds)[2 * q + 1]);
    }
    if trailing {
        assert(toks[i + 2 * n].kind == b[2 * n]);
    }
    assert(toks[i + 2 * n + t].kind == b[2 * n + t]);
    lemma_array_of_literals_from(toks, i, kinds, trailing, 0);
    assert(kinds.take(0).map_values(|k: TokenKindV| literal_value(k)->0) =~= seq![]);
}
} // verus!
