//! The parser: turns tokens into the table of a document.
use vstd::prelude::*;
use crate::config_error::{ConfigError, ConfigErrorV};
use crate::parse_spec::{array_items, assign_at, assign_path_error, document, expected, header_path, inline_entries, key_of, key_value, push_array_table, skip_blank, step_back, step_into, unexpected, value_at};
use crate::token::{SpannedToken, SpannedTokenV, TokenKind, tokens_view};
use crate::toml_value::{TomlValue, TomlValueV, entries_view, lemma_array_view, lemma_key_index, lemma_table_view, table_find, table_insert, values_view};

verus! {

/// The models of a sequence of strings.
pub open spec fn strings_view(v: Seq<String>) -> Seq<Seq<char>> {
    Seq::new(v.len(), |i: int| v[i]@)
}

/// Whether `r` is what `s` says reading a value gives: the value and the position
/// after it, or the error.
pub open spec fn value_read(
    r: Result<(TomlValue, usize), ConfigError>,
    s: Result<(TomlValueV, int), ConfigErrorV>,
) -> bool {
    match r {
        Ok((v, e)) => s == Ok::<(TomlValueV, int), ConfigErrorV>((v@, e as int)),
        Err(x) => s == Err::<(TomlValueV, int), ConfigErrorV>(x@),
    }
}

fn expected_token(line: usize, col: usize, what: &str, found: String) -> (r: ConfigError)
    ensures
        r@ == expected(line as nat, col as nat, what@, found@),
{
    ConfigError::ExpectedToken { line, col, expected: String::from_str(what), found }
}

fn unexpected_token_owned(line: usize, col: usize, what: &str, found: String) -> (r: ConfigError)
    ensures
        r@ == unexpected(line as nat, col as nat, what@, found@),
{
    ConfigError::UnexpectedCharacter { line, col, expected: String::from_str(what), found }
}

fn unexpected_token(line: usize, col: usize, what: &str, found: &str) -> (r: ConfigError)
    ensures
        r@ == unexpected(line as nat, col as nat, what@, found@),
{
    ConfigError::UnexpectedCharacter {
        line,
        col,
        expected: String::from_str(what),
        found: String::from_str(found),
    }
}

/// The first position from `i` on that does not hold a newline or a comment.
fn skip_newlines(tokens: &Vec<SpannedToken>, i: usize) -> (r: usize)
    requires
        i <= tokens.len(),
    ensures
        r == skip_blank(tokens_view(tokens@), i as int),
        i <= r <= tokens.len(),
{
    let ghost tv = tokens_view(tokens@);
    let mut j = i;
    while j < tokens.len()
        invariant
            tv == tokens_view(tokens@),
            i <= j <= tokens.len(),
            skip_blank(tv, i as int) == skip_blank(tv, j as int),
        ensures
            j == skip_blank(tv, i as int),
        decreases tokens.len() - j,
    {
        match &tokens[j].kind {
            TokenKind::NewLine | TokenKind::Comment(_) => {
                j = j + 1;
            },
            _ => {
                break;
            },
        }
    }
    j
}

/// The key that a token names, if it is a bare word or a string.
fn token_key(k: &TokenKind) -> (r: Option<String>)
    ensures
        match r {
            Some(s) => key_of(k@) == Some(s@),
            None => key_of(k@) is None,
        },
{
    match k {
        TokenKind::Identifier(s) => Some(s.clone()),
        TokenKind::StringLit(s) => Some(s.clone()),
        _ => None,
    }
}

/// Reads the value that starts at token `i`.
fn parse_value(tokens: &Vec<SpannedToken>, i: usize) -> (r: Result<(TomlValue, usize), ConfigError>)
    ensures
        value_read(r, value_at(tokens_view(tokens@), i as int)),
        r matches Ok((_, e)) ==> i < e <= tokens.len(),
    decreases tokens.len() - i, 0int,
{
    if i >= tokens.len() {
        return Err(expected_token(0, 0, "value", String::from_str("end of input")));
    }
    let t = &tokens[i];
    match &t.kind {
        TokenKind::StringLit(s) => Ok((TomlValue::String(s.clone()), i + 1)),
        TokenKind::Integer(n) => Ok((TomlValue::Integer(*n), i + 1)),
        TokenKind::Float(f) => Ok((TomlValue::Float(f.copy()), i + 1)),
        TokenKind::Boolean(b) => Ok((TomlValue::Boolean(*b), i + 1)),
        TokenKind::LBracket => parse_array(tokens, i),
        TokenKind::LBrace => parse_inline_table(tokens, i),
        _ => Err(
            expected_token(
                t.line,
                t.col,
                "value (string, integer, float, or boolean)",
                t.kind.debug_text(),
            ),
        ),
    }
}

/// Reads an array whose `[` is token `open`.
fn parse_array(tokens: &Vec<SpannedToken>, open: usize) -> (r: Result<(TomlValue, usize), ConfigError>)
    requires
        open < tokens.len(),
    ensures
        value_read(r, array_items(tokens_view(tokens@), open as int, open + 1, false, seq![])),
        r matches Ok((_, e)) ==> open < e <= tokens.len(),
    decreases tokens.len() - open - 1, 1int,
{
    let ghost tv = tokens_view(tokens@);
    let mut items: Vec<TomlValue> = Vec::new();
    let mut expect_comma = false;
    let mut i = open + 1;
    proof {
        assert(values_view(items@) =~= Seq::<TomlValueV>::empty());
    }
    loop
        invariant
            tv == tokens_view(tokens@),
            open < i <= tokens.len(),
            array_items(tv, open as int, open + 1, false, seq![]) == array_items(
                tv,
                open as int,
                i as int,
                expect_comma,
                values_view(items@),
            ),
        decreases tokens.len() - i,
    {
        if i >= tokens.len() {
            return Err(
                unexpected_token(tokens[open].line, tokens[open].col, "]", "end of input"),
            );
        }
        let j = skip_newlines(tokens, i);
        let t = &tokens[i];
        if expect_comma {
            match &t.kind {
                TokenKind::Comma => {
                    expect_comma = false;
                    i = j + 1;
                },
                TokenKind::RBracket => {
                    proof {
                        lemma_array_view(items);
                    }
                    return Ok((TomlValue::Array(items), j + 1));
                },
                _ => {
                    return Err(expected_token(t.line, t.col, ",", tokens[open].kind.debug_text()));
                },
            }
        } else {
            match &t.kind {
                TokenKind::RBracket => {
                    proof {
                        lemma_array_view(items);
                    }
                    return Ok((TomlValue::Array(items), j + 1));
                },
                _ => {
                    let (v, e) = match parse_value(tokens, j) {
                        Ok(x) => x,
                        Err(x) => {
                            return Err(x);
                        },
                    };
                    proof {
                        assert(values_view(items@.push(v)) =~= values_view(items@).push(v@));
                    }
                    items.push(v);
                    i = e;
                    expect_comma = true;
                },
            }
        }
    }
}

/// Reads an inline table whose `{` is token `open`.
fn parse_inline_table(tokens: &Vec<SpannedToken>, open: usize) -> (r: Result<
    (TomlValue, usize),
    ConfigError,
>)
    requires
        open < tokens.len(),
    ensures
        value_read(r, inline_entries(tokens_view(tokens@), open as int, open + 1, false, seq![])),
        r matches Ok((_, e)) ==> open < e <= tokens.len(),
    decreases tokens.len() - open - 1, 1int,
{
    let ghost tv = tokens_view(tokens@);
    let mut entries: Vec<(String, TomlValue)> = Vec::new();
    let mut expect_comma = false;
    let mut i = open + 1;
    proof {
        assert(entries_view(entries@) =~= Seq::<(Seq<char>, TomlValueV)>::empty());
    }
    loop
        invariant
            tv == tokens_view(tokens@),
            open < i <= tokens.len(),
            inline_entries(tv, open as int, open + 1, false, seq![]) == inline_entries(
                tv,
                open as int,
                i as int,
                expect_comma,
                entries_view(entries@),
            ),
        decreases tokens.len() - i,
    {
        if i >= tokens.len() {
            return Err(
                unexpected_token(tokens[open].line, tokens[open].col, "}", "end of input"),
            );
        }
        let t = &tokens[i];
        if expect_comma {
            match &t.kind {
                TokenKind::Comma => {
                    expect_comma = false;
                    i = i + 1;
                },
                TokenKind::RBrace => {
                    proof {
                        lemma_table_view(entries);
                    }
                    return Ok((TomlValue::Table(entries), i + 1));
                },
                _ => {
                    return Err(expected_token(t.line, t.col, "',' or '}'", t.kind.debug_text()));
                },
            }
        } else {
            match &t.kind {
                TokenKind::RBrace => {
                    proof {
                        lemma_table_view(entries);
                    }
                    return Ok((TomlValue::Table(entries), i + 1));
                },
                _ => {
                    let key = match token_key(&t.kind) {
                        Some(k) => k,
                        None => {
                            return Err(
                                expected_token(t.line, t.col, "key or '}'", t.kind.debug_text()),
                            );
                        },
                    };
                    if i + 1 >= tokens.len() {
                        return Err(ConfigError::MissingValue { line: t.line, col: t.col, key });
                    }
                    let eq = &tokens[i + 1];
                    match &eq.kind {
                        TokenKind::Equal => {},
                        _ => {
                            return Err(expected_token(eq.line, eq.col, "=", eq.kind.debug_text()));
                        },
                    }
                    let (v, e) = match parse_value(tokens, i + 2) {
                        Ok(x) => x,
                        Err(x) => {
                            return Err(x);
                        },
                    };
                    table_insert(&mut entries, key, v);
                    i = e;
                    expect_comma = true;
                },
            }
        }
    }
}

/// Reads the dotted path of a table header from token `i` (just after `[`, or
/// after `[[` when `double` is set) up to and including its closing bracket(s).
fn parse_table_header(tokens: &Vec<SpannedToken>, i: usize, double: bool) -> (r: Result<
    (Vec<String>, usize),
    ConfigError,
>)
    requires
        i <= tokens.len(),
    ensures
        match r {
            Ok((p, e)) => header_path(tokens_view(tokens@), i as int, false, seq![], 0, 0, double)
                == Ok::<(Seq<Seq<char>>, int), ConfigErrorV>((strings_view(p@), e as int)) && i
                < e <= tokens.len(),
            Err(x) => header_path(tokens_view(tokens@), i as int, false, seq![], 0, 0, double)
                == Err::<(Seq<Seq<char>>, int), ConfigErrorV>(x@),
        },
{
    let ghost tv = tokens_view(tokens@);
    let mut expect_dot = false;
    let mut dotted: Vec<String> = Vec::new();
    let mut line: usize = 0;
    let mut col: usize = 0;
    let mut j = i;
    proof {
        assert(strings_view(dotted@) =~= Seq::<Seq<char>>::empty());
    }
    while j < tokens.len()
        invariant
            tv == tokens_view(tokens@),
            i <= j <= tokens.len(),
            header_path(tv, i as int, false, seq![], 0, 0, double) == header_path(
                tv,
                j as int,
                expect_dot,
                strings_view(dotted@),
                line as nat,
                col as nat,
                double,
            ),
        decreases tokens.len() - j,
    {
        let t = &tokens[j];
        if expect_dot {
            let closes = match &t.kind {
                TokenKind::RBracket => if double {
                    j + 1 < tokens.len() && match &tokens[j + 1].kind {
                        TokenKind::RBracket => true,
                        _ => false,
                    }
                } else {
                    true
                },
                _ => false,
            };
            if closes {
                return Ok((dotted, if double { j + 2 } else { j + 1 }));
            }
            match &t.kind {
                TokenKind::Dot => {
                    expect_dot = false;
                },
                _ => {
                    let what = if double {
                        "'.' or ']]'"
                    } else {
                        "'.' or ']'"
                    };
                    return Err(expected_token(t.line, t.col, what, t.kind.debug_text()));
                },
            }
        } else {
            match token_key(&t.kind) {
                Some(k) => {
                    proof {
                        assert(strings_view(dotted@.push(k)) =~= strings_view(dotted@).push(k@));
                    }
                    dotted.push(k);
                    expect_dot = true;
                },
                None => {
                    return Err(
                        expected_token(t.line, t.col, "string or identifier", t.kind.debug_text()),
                    );
                },
            }
        }
        line = t.line;
        col = t.col;
        j = j + 1;
    }
    let what = if double {
        "']]'"
    } else {
        "']'"
    };
    Err(expected_token(line, col, what, String::from_str("end of the file")))
}

proof fn lemma_skip_first(p: Seq<Seq<char>>, d: int)
    requires
        0 <= d < p.len(),
    ensures
        p.skip(d)[0] == p[d],
        p.skip(d).drop_first() == p.skip(d + 1),
        p.skip(d).len() == p.len() - d,
{
    assert(p.skip(d).drop_first() =~= p.skip(d + 1));
}

/// The error met while walking down `path[d..]` from `t` to assign a key, if any.
fn assign_path_check(t: &Vec<(String, TomlValue)>, path: &Vec<String>, d: usize) -> (r: Option<
    ConfigError,
>)
    requires
        d <= path.len(),
    ensures
        match r {
            Some(e) => assign_path_error(entries_view(t@), strings_view(path@).skip(d as int))
                == Some(e@),
            None => assign_path_error(entries_view(t@), strings_view(path@).skip(d as int)) is None,
        },
    decreases path.len() - d,
{
    let ghost pv = strings_view(path@);
    let ghost tv = entries_view(t@);
    if d == path.len() {
        proof {
            assert(pv.skip(d as int).len() == 0);
        }
        return None;
    }
    proof {
        lemma_skip_first(pv, d as int);
        lemma_key_index(tv, pv[d as int]);
    }
    match table_find(t, &path[d]) {
        None => {
            let empty: Vec<(String, TomlValue)> = Vec::new();
            proof {
                assert(entries_view(empty@) =~= Seq::<(Seq<char>, TomlValueV)>::empty());
            }
            assign_path_check(&empty, path, d + 1)
        },
        Some(idx) => {
            let child = &t[idx].1;
            match child {
                TomlValue::Table(inner) => {
                    proof {
                        lemma_table_view(*inner);
                    }
                    assign_path_check(inner, path, d + 1)
                },
                TomlValue::Array(a) => {
                    proof {
                        lemma_array_view(*a);
                    }
                    if a.len() > 0 {
                        match &a[a.len() - 1] {
                            TomlValue::Table(inner) => {
                                proof {
                                    lemma_table_view(*inner);
                                }
                                return assign_path_check(inner, path, d + 1);
                            },
                            _ => {},
                        }
                    }
                    Some(
                        unexpected_token(
                            0,
                            0,
                            "an array of tables",
                            "an empty or non-table array",
                        ),
                    )
                },
                _ => Some(unexpected_token(0, 0, "a table", "a conflicting value")),
            }
        },
    }
}

/// Binds `key` to `value` in the table that `path[d..]` leads to from `t`.
fn assign_in(
    t: &mut Vec<(String, TomlValue)>,
    path: &Vec<String>,
    d: usize,
    key: String,
    value: TomlValue,
)
    requires
        d <= path.len(),
        assign_path_error(entries_view(old(t)@), strings_view(path@).skip(d as int)) is None,
    ensures
        entries_view(final(t)@) == assign_at(
            entries_view(old(t)@),
            strings_view(path@).skip(d as int),
            key@,
            value@,
        ),
    decreases path.len() - d,
{
    let ghost pv = strings_view(path@);
    let ghost tv = entries_view(t@);
    if d == path.len() {
        proof {
            assert(pv.skip(d as int).len() == 0);
        }
        table_insert(t, key, value);
        return ;
    }
    proof {
        lemma_skip_first(pv, d as int);
        lemma_key_index(tv, pv[d as int]);
    }
    match table_find(t, &path[d]) {
        None => {
            let mut inner: Vec<(String, TomlValue)> = Vec::new();
            proof {
                assert(entries_view(inner@) =~= Seq::<(Seq<char>, TomlValueV)>::empty());
            }
            assign_in(&mut inner, path, d + 1, key, value);
            let ghost iv = entries_view(inner@);
            t.push((path[d].clone(), TomlValue::Table(inner)));
            proof {
                lemma_table_view(inner);
                assert(entries_view(t@) =~= tv.push((pv[d as int], TomlValueV::Table(iv))));
                assert(step_into(tv, pv[d as int]) == Some(Seq::<(Seq<char>, TomlValueV)>::empty()));
                assert(step_back(tv, pv[d as int], iv) == tv.push((pv[d as int], TomlValueV::Table(iv))));
            }
        },
        Some(idx) => {
            let ghost cv = tv[idx as int].1;
            let mut entry: (String, TomlValue) = (String::new(), TomlValue::Boolean(false));
            t.set_and_swap(idx, &mut entry);
            let (k, child) = entry;
            let new_child = match child {
                TomlValue::Table(inner) => {
                    let mut inner = inner;
                    proof {
                        lemma_table_view(inner);
                    }
                    let ghost iv0 = entries_view(inner@);
                    assign_in(&mut inner, path, d + 1, key, value);
                    proof {
                        lemma_table_view(inner);
                        assert(step_into(tv, pv[d as int]) == Some(iv0));
                        assert(step_back(tv, pv[d as int], entries_view(inner@)) == tv.update(
                            idx as int,
                            (pv[d as int], TomlValueV::Table(entries_view(inner@))),
                        ));
                    }
                    TomlValue::Table(inner)
                },
                TomlValue::Array(a) => {
                    let mut a = a;
                    proof {
                        lemma_array_view(a);
                    }
                    let ghost a0 = values_view(a@);
                    let last = a.len() - 1;
                    let mut last_value = TomlValue::Boolean(false);
                    a.set_and_swap(last, &mut last_value);
                    match last_value {
                        TomlValue::Table(inner) => {
                            let mut inner = inner;
                            proof {
                                lemma_table_view(inner);
                            }
                            let ghost iv0 = entries_view(inner@);
                            assign_in(&mut inner, path, d + 1, key, value);
                            proof {
                                lemma_table_view(inner);
                            }
                            a.set(last, TomlValue::Table(inner));
                            proof {
                                let nv = TomlValueV::Table(entries_view(inner@));
                                assert(values_view(a@) =~= a0.update(last as int, nv));
                                assert(step_into(tv, pv[d as int]) == Some(iv0));
                                assert(step_back(tv, pv[d as int], entries_view(inner@)) == tv.update(
                                    idx as int,
                                    (pv[d as int], TomlValueV::Array(a0.update(last as int, nv))),
                                ));
                            }
                        },
                        _ => {
                            proof {
                                assert(false);
                            }
                        },
                    }
                    proof {
                        lemma_array_view(a);
                    }
                    TomlValue::Array(a)
                },
                other => {
                    proof {
                        assert(false);
                    }
                    other
                },
            };
            t.set(idx, (k, new_child));
            proof {
                assert(entries_view(t@) =~= tv.update(idx as int, (pv[d as int], new_child@)));
            }
        },
    }
}


/// Whether a path step can enter `v`: a table, or an array whose last element is a table.
fn enterable(v: &TomlValue) -> (r: bool)
    ensures
        r <==> match v@ {
            TomlValueV::Table(_) => true,
            TomlValueV::Array(a) => a.len() > 0 && a.last() is Table,
            _ => false,
        },
{
    match v {
        TomlValue::Table(_) => true,
        TomlValue::Array(a) => {
            proof {
                lemma_array_view(*a);
            }
            if a.len() == 0 {
                false
            } else {
                match &a[a.len() - 1] {
                    TomlValue::Table(_) => true,
                    _ => false,
                }
            }
        },
        _ => false,
    }
}

/// Appends a new empty table to the array of tables that `path[d..]` names from `t`.
fn push_array_in(t: &mut Vec<(String, TomlValue)>, path: &Vec<String>, d: usize) -> (r: Result<
    (),
    ConfigError,
>)
    requires
        d < path.len(),
    ensures
        match push_array_table(entries_view(old(t)@), strings_view(path@).skip(d as int)) {
            Ok(x) => r is Ok && entries_view(final(t)@) == x,
            Err(e) => r matches Err(y) && y@ == e,
        },
        r is Err ==> entries_view(final(t)@) == entries_view(old(t)@),
    decreases path.len() - d,
{
    let ghost pv = strings_view(path@);
    let ghost tv = entries_view(t@);
    proof {
        lemma_skip_first(pv, d as int);
        lemma_key_index(tv, pv[d as int]);
    }
    let found = table_find(t, &path[d]);
    if d + 1 == path.len() {
        match found {
            None => {
                let mut arr: Vec<TomlValue> = Vec::new();
                let empty: Vec<(String, TomlValue)> = Vec::new();
                proof {
                    lemma_table_view(empty);
                    assert(entries_view(empty@) =~= Seq::<(Seq<char>, TomlValueV)>::empty());
                }
                arr.push(TomlValue::Table(empty));
                proof {
                    lemma_array_view(arr);
                    assert(values_view(arr@) =~= seq![TomlValueV::Table(seq![])]);
                }
                t.push((path[d].clone(), TomlValue::Array(arr)));
                proof {
                    assert(entries_view(t@) =~= tv.push(
                        (pv[d as int], TomlValueV::Array(seq![TomlValueV::Table(seq![])])),
                    ));
                }
                Ok(())
            },
            Some(idx) => {
                let is_array = match &t[idx].1 {
                    TomlValue::Array(_) => true,
                    _ => false,
                };
                if !is_array {
                    return Err(
                        unexpected_token(0, 0, "an array", "a statically defined table or value"),
                    );
                }
                let mut entry: (String, TomlValue) = (String::new(), TomlValue::Boolean(false));
                t.set_and_swap(idx, &mut entry);
                let (k, child) = entry;
                match child {
                    TomlValue::Array(a) => {
                        let mut a = a;
                        proof {
                            lemma_array_view(a);
                        }
                        let ghost a0 = values_view(a@);
                        let empty: Vec<(String, TomlValue)> = Vec::new();
                        proof {
                            lemma_table_view(empty);
                            assert(entries_view(empty@) =~= Seq::<(Seq<char>, TomlValueV)>::empty());
                        }
                        a.push(TomlValue::Table(empty));
                        proof {
                            lemma_array_view(a);
                            assert(values_view(a@) =~= a0.push(TomlValueV::Table(seq![])));
                        }
                        t.set(idx, (k, TomlValue::Array(a)));
                        proof {
                            assert(entries_view(t@) =~= tv.update(
                                idx as int,
                                (pv[d as int], TomlValueV::Array(a0.push(TomlValueV::Table(seq![])))),
                            ));
                        }
                        Ok(())
                    },
                    other => {
                        proof {
                            assert(false);
                        }
                        t.set(idx, (k, other));
                        Ok(())
                    },
                }
            },
        }
    } else {
        match found {
            None => {
                let mut inner: Vec<(String, TomlValue)> = Vec::new();
                proof {
                    assert(entries_view(inner@) =~= Seq::<(Seq<char>, TomlValueV)>::empty());
                }
                match push_array_in(&mut inner, path, d + 1) {
                    Ok(()) => {},
                    Err(e) => {
                        return Err(e);
                    },
                }
                let ghost iv = entries_view(inner@);
                t.push((path[d].clone(), TomlValue::Table(inner)));
                proof {
                    lemma_table_view(inner);
                    assert(entries_view(t@) =~= tv.push((pv[d as int], TomlValueV::Table(iv))));
                    assert(step_into(tv, pv[d as int]) == Some(Seq::<(Seq<char>, TomlValueV)>::empty()));
                    assert(step_back(tv, pv[d as int], iv) == tv.push((pv[d as int], TomlValueV::Table(iv))));
                }
                Ok(())
            },
            Some(idx) => {
                if !enterable(&t[idx].1) {
                    return Err(unexpected_token(0, 0, "valid array table", "invalid array table"));
                }
                let mut entry: (String, TomlValue) = (String::new(), TomlValue::Boolean(false));
                t.set_and_swap(idx, &mut entry);
                let (k, child) = entry;
                let (new_child, res) = match child {
                    TomlValue::Table(inner) => {
                        let mut inner = inner;
                        proof {
                            lemma_table_view(inner);
                        }
                        let ghost iv0 = entries_view(inner@);
                        let res = push_array_in(&mut inner, path, d + 1);
                        proof {
                            lemma_table_view(inner);
                            if res is Ok {
                                assert(step_into(tv, pv[d as int]) == Some(iv0));
                                assert(step_back(tv, pv[d as int], entries_view(inner@)) == tv.update(
                                    idx as int,
                                    (pv[d as int], TomlValueV::Table(entries_view(inner@))),
                                ));
                            }
                        }
                        (TomlValue::Table(inner), res)
                    },
                    TomlValue::Array(a) => {
                        let mut a = a;
                        proof {
                            lemma_array_view(a);
                        }
                        let ghost a0 = values_view(a@);
                        let last = a.len() - 1;
                        let mut last_value = TomlValue::Boolean(false);
                        a.set_and_swap(last, &mut last_value);
                        let res = match last_value {
                            TomlValue::Table(inner) => {
                                let mut inner = inner;
                                proof {
                                    lemma_table_view(inner);
                                }
                                let ghost iv0 = entries_view(inner@);
                                let res = push_array_in(&mut inner, path, d + 1);
                                proof {
                                    lemma_table_view(inner);
                                }
                                a.set(last, TomlValue::Table(inner));
                                proof {
                                    let nv = TomlValueV::Table(entries_view(inner@));
                                    assert(values_view(a@) =~= a0.update(last as int, nv));
                                    if res is Ok {
                                        assert(step_into(tv, pv[d as int]) == Some(iv0));
                                        assert(step_back(tv, pv[d as int], entries_view(inner@))
                                            == tv.update(
                                            idx as int,
                                            (pv[d as int], TomlValueV::Array(a0.update(last as int, nv))),
                                        ));
                                    } else {
                                        assert(values_view(a@) =~= a0);
                                    }
                                }
                                res
                            },
                            other => {
                                proof {
                                    assert(false);
                                }
                                a.set(last, other);
                                Ok(())
                            },
                        };
                        proof {
                            lemma_array_view(a);
                        }
                        (TomlValue::Array(a), res)
                    },
                    other => {
                        proof {
                            assert(false);
                        }
                        (other, Ok(()))
                    },
                };
                t.set(idx, (k, new_child));
                proof {
                    assert(entries_view(t@) =~= tv.update(idx as int, (pv[d as int], new_child@)));
                    if res is Err {
                        assert(entries_view(t@) =~= tv);
                    }
                }
                res
            },
        }
    }
}

/// Reads a `key = value` line whose key was read just before token `i`, and binds
/// the key in the table that `path` names in `root`; returns the position after it.
fn parse_key_value(
    tokens: &Vec<SpannedToken>,
    i: usize,
    path: &Vec<String>,
    key: String,
    root: &mut Vec<(String, TomlValue)>,
) -> (r: Result<usize, ConfigError>)
    requires
        i <= tokens.len(),
    ensures
        match key_value(tokens_view(tokens@), i as int, strings_view(path@), key@, entries_view(old(root)@)) {
            Ok((x, e)) => r == Ok::<usize, ConfigError>(e as usize) && entries_view(final(root)@) == x
                && i < e <= tokens.len(),
            Err(x) => r matches Err(y) && y@ == x,
        },
{
    let ghost pv = strings_view(path@);
    proof {
        assert(pv.skip(0) =~= pv);
    }
    match assign_path_check(root, path, 0) {
        Some(e) => {
            return Err(e);
        },
        None => {},
    }
    if i >= tokens.len() {
        return Err(ConfigError::MissingValue { line: 0, col: 1, key });
    }
    let t = &tokens[i];
    match &t.kind {
        TokenKind::Equal => {},
        _ => {
            return Err(expected_token(t.line, t.col, "=", t.kind.debug_text()));
        },
    }
    let (v, e) = match parse_value(tokens, i + 1) {
        Ok(x) => x,
        Err(x) => {
            return Err(x);
        },
    };
    assign_in(root, path, 0, key, v);
    Ok(e)
}

/// Turns the tokens of a document into its table.
#[derive(Debug)]
pub struct Parser {
    tokens: Vec<SpannedToken>,
    pos: usize,
}

impl Parser {
    /// The tokens that the parser reads.
    pub closed spec fn tokens(&self) -> Seq<SpannedTokenV> {
        tokens_view(self.tokens@)
    }

    /// The index of the next token to read.
    pub closed spec fn position(&self) -> int {
        self.pos as int
    }

    /// A parser at the first of `tokens`.
    pub fn new(tokens: Vec<SpannedToken>) -> (p: Parser)
        ensures
            p.tokens() == tokens_view(tokens@),
            p.position() == 0,
    {
        Parser { tokens, pos: 0 }
    }

    /// Parses the document from the current token to the end: the result is a
    /// table holding each key of the top level, each `[table]` that received a
    /// key, and each `[[array of tables]]`.
    pub fn parse(&mut self) -> (r: Result<TomlValue, ConfigError>)
        requires
            0 <= old(self).position() <= old(self).tokens().len(),
        ensures
            final(self).tokens() == old(self).tokens(),
            old(self).position() <= final(self).position() <= final(self).tokens().len(),
            match document(old(self).tokens(), old(self).position(), seq![], seq![]) {
                Ok(t) => r matches Ok(v) && v@ == TomlValueV::Table(t) && final(self).position()
                    == final(self).tokens().len(),
                Err(e) => r matches Err(x) && x@ == e,
            },
    {
        let ghost tv = tokens_view(self.tokens@);
        let ghost start = self.pos as int;
        let mut root: Vec<(String, TomlValue)> = Vec::new();
        let mut path: Vec<String> = Vec::new();
        proof {
            assert(entries_view(root@) =~= Seq::<(Seq<char>, TomlValueV)>::empty());
            assert(strings_view(path@) =~= Seq::<Seq<char>>::empty());
        }
        while self.pos < self.tokens.len()
            invariant
                tv == tokens_view(self.tokens@),
                tv == old(self).tokens(),
                start == old(self).position(),
                start <= self.pos <= self.tokens.len(),
                document(tv, start, seq![], seq![]) == document(
                    tv,
                    self.pos as int,
                    strings_view(path@),
                    entries_view(root@),
                ),
            decreases self.tokens.len() - self.pos,
        {
            let i = self.pos;
            let n = self.tokens.len();
            let t = &self.tokens[i];
            match &t.kind {
                TokenKind::NewLine | TokenKind::Comment(_) => {
                    self.pos = i + 1;
                },
                TokenKind::LBracket => {
                    let double = i + 1 < n && match &self.tokens[i + 1].kind {
                        TokenKind::LBracket => true,
                        _ => false,
                    };
                    if double {
                        let (p, e) = match parse_table_header(&self.tokens, i + 2, true) {
                            Ok(x) => x,
                            Err(x) => {
                                return Err(x);
                            },
                        };
                        if p.len() > 0 {
                            proof {
                                assert(strings_view(p@).skip(0) =~= strings_view(p@));
                            }
                            match push_array_in(&mut root, &p, 0) {
                                Ok(()) => {},
                                Err(x) => {
                                    return Err(x);
                                },
                            }
                        }
                        path = p;
                        self.pos = e;
                    } else {
                        let (p, e) = match parse_table_header(&self.tokens, i + 1, false) {
                            Ok(x) => x,
                            Err(x) => {
                                return Err(x);
                            },
                        };
                        path = p;
                        self.pos = e;
                    }
                },
                _ => {
                    let key = match token_key(&t.kind) {
                        Some(k) => k,
                        None => {
                            return Err(
                                unexpected_token_owned(
                                    t.line,
                                    t.col,
                                    "key, table header, or comment",
                                    t.kind.debug_text(),
                                ),
                            );
                        },
                    };
                    let e = match parse_key_value(&self.tokens, i + 1, &path, key, &mut root) {
                        Ok(e) => e,
                        Err(x) => {
                            return Err(x);
                        },
                    };
                    self.pos = e;
                },
            }
        }
        proof {
            lemma_table_view(root);
        }
        Ok(TomlValue::Table(root))
    }
}

} // verus!
