//! The executable parser, proved against the grammar in [`crate::grammar`].
//!
//! Every function here returns exactly what the corresponding spec function
//! of the grammar says: the same tree, the same stop position, and on
//! failure the same reason at the same position.

use vstd::prelude::*;
use vstd::string::StrSliceExecFns;

use crate::grammar::digits_end;
use crate::grammar::escape_char;
use crate::grammar::exp_end;
use crate::grammar::frac_end;
use crate::grammar::is_digit;
use crate::grammar::is_false_at;
use crate::grammar::is_null_at;
use crate::grammar::is_true_at;
use crate::grammar::is_ws_char;
use crate::grammar::num_end;
use crate::grammar::skip_ws;
use crate::grammar::spec_array;
use crate::grammar::spec_elems;
use crate::grammar::spec_json_text;
use crate::grammar::spec_members;
use crate::grammar::spec_object;
use crate::grammar::spec_value;
use crate::grammar::string_body;
use crate::grammar::ErrorKind;
use crate::value::lemma_view_seq_push;
use crate::value::obj_insert;
use crate::value::obj_keys_unique;
use crate::value::obj_vals_wf;
use crate::value::seq_wf;
use crate::value::value_wf;
use crate::value::view_of;
use crate::value::view_of_obj;
use crate::value::view_of_seq;
use crate::value::SpecValue;
use crate::value::Value;

pub use crate::grammar::MAX_DEPTH;

verus! {

/// A parse failure: the reason and the character position it refers to.
#[derive(Debug, Clone, Copy, PartialEq, Eq)]
pub struct ParseError {
    /// Why parsing failed.
    pub kind: ErrorKind,
    /// The character index the failure refers to.
    pub pos: usize,
}

/// The executable result mirrors the spec result: the same tree (by its
/// denotation) and stop position on success, the same reason and position
/// on failure.
pub open spec fn step_matches(
    r: Result<(Value, usize), ParseError>,
    sr: Result<(SpecValue, int), (ErrorKind, int)>,
) -> bool {
    match r {
        Ok((v, j)) => sr == Ok::<(SpecValue, int), (ErrorKind, int)>((view_of(v), j as int)),
        Err(e) => sr == Err::<(SpecValue, int), (ErrorKind, int)>((e.kind, e.pos as int)),
    }
}

/// As [`step_matches`], for the contents of a string literal.
pub open spec fn str_matches(
    r: Result<(String, usize), ParseError>,
    sr: Result<(Seq<char>, int), (ErrorKind, int)>,
) -> bool {
    match r {
        Ok((t, j)) => sr == Ok::<(Seq<char>, int), (ErrorKind, int)>((t@, j as int)),
        Err(e) => sr == Err::<(Seq<char>, int), (ErrorKind, int)>((e.kind, e.pos as int)),
    }
}

/// Relies on String::push from std: appends the one character at the end
/// of the string.
#[verifier::external_body]
fn push_char(s: &mut String, c: char)
    ensures
        final(s)@ == old(s)@.push(c),
{
    s.push(c);
}

/// Whether the character is an ASCII decimal digit.
fn digit(c: char) -> (r: bool)
    ensures
        r == is_digit(c),
{
    ('0' as u32) <= (c as u32) && (c as u32) <= ('9' as u32)
}

/// Scans past whitespace: the first position at or after `i` that does not
/// hold a whitespace character.
fn ws_end(s: &str, i: usize, n: usize) -> (j: usize)
    requires
        i <= n,
        n == s@.len(),
    ensures
        j == skip_ws(s@, i as int),
        i <= j <= n,
{
    let mut j = i;
    loop
        invariant
            i <= j <= n,
            n == s@.len(),
            skip_ws(s@, i as int) == skip_ws(s@, j as int),
        ensures
            i <= j <= n,
            skip_ws(s@, i as int) == skip_ws(s@, j as int),
            j == n || !is_ws_char(s@[j as int]),
        decreases n - j,
    {
        if j == n {
            break ;
        }
        let c = s.get_char(j);
        if !(c == ' ' || c == '\t' || c == '\n' || c == '\r') {
            break ;
        }
        j = j + 1;
    }
    j
}

/// Scans past digits: the first position at or after `i` that does not
/// hold an ASCII digit.
fn scan_digits(s: &str, i: usize, n: usize) -> (j: usize)
    requires
        i <= n,
        n == s@.len(),
    ensures
        j == digits_end(s@, i as int),
        i <= j <= n,
        j < n ==> !is_digit(s@[j as int]),
{
    let mut j = i;
    loop
        invariant
            i <= j <= n,
            n == s@.len(),
            digits_end(s@, i as int) == digits_end(s@, j as int),
        ensures
            i <= j <= n,
            digits_end(s@, i as int) == digits_end(s@, j as int),
            j == n || !is_digit(s@[j as int]),
        decreases n - j,
    {
        if j == n {
            break ;
        }
        if !digit(s.get_char(j)) {
            break ;
        }
        j = j + 1;
    }
    j
}

/// Reads the rest of a string literal, the opening quote already consumed:
/// the decoded contents and the position after the closing quote, as
/// [`string_body`] says.
#[verifier::loop_isolation(false)]
fn parse_string_body(s: &str, start: usize, n: usize) -> (r: Result<(String, usize), ParseError>)
    requires
        start <= n,
        n == s@.len(),
    ensures
        str_matches(r, string_body(s@, start as int, Seq::<char>::empty())),
        r matches Ok((t, j)) ==> start < j <= n,
        r matches Err(e) ==> e.pos <= n,
{
    let mut acc = String::new();
    let mut j = start;
    loop
        invariant
            start <= j <= n,
            string_body(s@, start as int, Seq::<char>::empty()) == string_body(
                s@,
                j as int,
                acc@,
            ),
        decreases n - j,
    {
        if j == n {
            return Err(ParseError { kind: ErrorKind::UnterminatedString, pos: j });
        }
        let c = s.get_char(j);
        if c == '"' {
            return Ok((acc, j + 1));
        }
        if c == '\\' {
            if j + 1 == n {
                return Err(ParseError { kind: ErrorKind::UnterminatedString, pos: j + 1 });
            }
            let e = s.get_char(j + 1);
            let dec: char;
            if e == '"' {
                dec = '"';
            } else if e == '\\' {
                dec = '\\';
            } else if e == '/' {
                dec = '/';
            } else if e == 'b' {
                dec = '\u{8}';
            } else if e == 'f' {
                dec = '\u{c}';
            } else if e == 'n' {
                dec = '\n';
            } else if e == 'r' {
                dec = '\r';
            } else if e == 't' {
                dec = '\t';
            } else {
                return Err(ParseError { kind: ErrorKind::InvalidEscape, pos: j + 1 });
            }
            proof {
                assert(escape_char(s@[j + 1]) == Some(dec));
            }
            push_char(&mut acc, dec);
            j = j + 2;
        } else {
            push_char(&mut acc, c);
            j = j + 1;
        }
    }
}

/// Reads a number literal at `i`: the exact literal text and the position
/// after it, or `None` when no number starts at `i`, as [`num_end`] says.
fn parse_number(s: &str, i: usize, n: usize) -> (r: Option<(String, usize)>)
    requires
        i <= n,
        n == s@.len(),
    ensures
        match r {
            Some((lit, j)) => num_end(s@, i as int) == Some(j as int) && lit@ == s@.subrange(
                i as int,
                j as int,
            ) && i < j <= n,
            None => num_end(s@, i as int) is None,
        },
{
    let mut j = i;
    if j < n && s.get_char(j) == '-' {
        j = j + 1;
    }
    if !(j < n && digit(s.get_char(j))) {
        return None;
    }
    let k = scan_digits(s, j, n);
    let k2 = if n - k >= 2 && s.get_char(k) == '.' && digit(s.get_char(k + 1)) {
        scan_digits(s, k + 1, n)
    } else {
        k
    };
    proof {
        assert(k2 == frac_end(s@, k as int));
    }
    let k3 = if k2 < n && (s.get_char(k2) == 'e' || s.get_char(k2) == 'E') {
        let m = if n - k2 >= 2 && (s.get_char(k2 + 1) == '+' || s.get_char(k2 + 1) == '-') {
            k2 + 2
        } else {
            k2 + 1
        };
        if m < n && digit(s.get_char(m)) {
            scan_digits(s, m, n)
        } else {
            k2
        }
    } else {
        k2
    };
    proof {
        assert(k3 == exp_end(s@, k2 as int));
    }
    let lit = s.substring_char(i, k3).to_owned();
    Some((lit, k3))
}

/// Reads one value at `i`, deciding the alternative by its first character,
/// as [`spec_value`] says.
fn parse_value(s: &str, i: usize, depth: usize, n: usize) -> (r: Result<
    (Value, usize),
    ParseError,
>)
    requires
        i <= n,
        n == s@.len(),
    ensures
        step_matches(r, spec_value(s@, i as int, depth as nat)),
        r matches Ok((v, j)) ==> i < j <= n && value_wf(v),
        r matches Err(e) ==> e.pos <= n,
    decreases depth, 1int,
{
    if i == n {
        return Err(ParseError { kind: ErrorKind::NoValueMatched, pos: i });
    }
    let c = s.get_char(i);
    if c == '"' {
        match parse_string_body(s, i + 1, n) {
            Ok((t, j)) => Ok((Value::String(t), j)),
            Err(e) => Err(e),
        }
    } else if c == '-' || digit(c) {
        match parse_number(s, i, n) {
            Some((lit, j)) => Ok((Value::Number(lit), j)),
            None => Err(ParseError { kind: ErrorKind::NoValueMatched, pos: i }),
        }
    } else if c == 't' {
        if n - i >= 4 && s.get_char(i + 1) == 'r' && s.get_char(i + 2) == 'u' && s.get_char(i + 3)
            == 'e' {
            Ok((Value::Bool(true), i + 4))
        } else {
            proof {
                assert(!is_true_at(s@, i as int));
            }
            Err(ParseError { kind: ErrorKind::NoValueMatched, pos: i })
        }
    } else if c == 'f' {
        if n - i >= 5 && s.get_char(i + 1) == 'a' && s.get_char(i + 2) == 'l' && s.get_char(i + 3)
            == 's' && s.get_char(i + 4) == 'e' {
            Ok((Value::Bool(false), i + 5))
        } else {
            proof {
                assert(!is_false_at(s@, i as int));
            }
            Err(ParseError { kind: ErrorKind::NoValueMatched, pos: i })
        }
    } else if c == '{' {
        parse_object(s, i, depth, n)
    } else if c == '[' {
        parse_array(s, i, depth, n)
    } else if c == 'n' {
        if n - i >= 4 && s.get_char(i + 1) == 'u' && s.get_char(i + 2) == 'l' && s.get_char(i + 3)
            == 'l' {
            Ok((Value::Null, i + 4))
        } else {
            proof {
                assert(!is_null_at(s@, i as int));
            }
            Err(ParseError { kind: ErrorKind::NoValueMatched, pos: i })
        }
    } else {
        Err(ParseError { kind: ErrorKind::NoValueMatched, pos: i })
    }
}

/// Reads an array standing at `i`: elements separated by tolerated commas
/// up to the closing bracket, as [`spec_array`] says.
#[verifier::loop_isolation(false)]
fn parse_array(s: &str, i: usize, depth: usize, n: usize) -> (r: Result<
    (Value, usize),
    ParseError,
>)
    requires
        i < n,
        n == s@.len(),
        s@[i as int] == '[',
    ensures
        step_matches(r, spec_array(s@, i as int, depth as nat)),
        r matches Ok((v, j)) ==> i < j <= n && value_wf(v),
        r matches Err(e) ==> e.pos <= n,
    decreases depth, 0int,
{
    if depth == 0 {
        return Err(ParseError { kind: ErrorKind::NestingTooDeep, pos: i });
    }
    let d2 = depth - 1;
    let start = ws_end(s, i + 1, n);
    let mut elems: Vec<Value> = Vec::new();
    let mut cur = start;
    loop
        invariant
            start <= cur <= n,
            seq_wf(elems@),
            spec_elems(s@, start as int, d2 as nat, Seq::<SpecValue>::empty()) == spec_elems(
                s@,
                cur as int,
                d2 as nat,
                view_of_seq(elems@),
            ),
        decreases n - cur,
    {
        let j = if cur < n && s.get_char(cur) == ',' {
            ws_end(s, cur + 1, n)
        } else {
            cur
        };
        if j == n {
            return Err(ParseError { kind: ErrorKind::UnclosedArray, pos: j });
        }
        let c = s.get_char(j);
        if c == ']' {
            return Ok((Value::Array(elems), j + 1));
        }
        match parse_value(s, j, d2, n) {
            Ok((v, k)) => {
                let k2 = ws_end(s, k, n);
                proof {
                    lemma_view_seq_push(elems@, v);
                }
                elems.push(v);
                cur = k2;
            },
            Err(e) => {
                return Err(e);
            },
        }
    }
}

/// Reads an object standing at `i`: `"name" : value` members separated by
/// tolerated commas up to the closing brace, a repeated name overwriting
/// the earlier value, as [`spec_object`] says.
#[verifier::loop_isolation(false)]
fn parse_object(s: &str, i: usize, depth: usize, n: usize) -> (r: Result<
    (Value, usize),
    ParseError,
>)
    requires
        i < n,
        n == s@.len(),
        s@[i as int] == '{',
    ensures
        step_matches(r, spec_object(s@, i as int, depth as nat)),
        r matches Ok((v, j)) ==> i < j <= n && value_wf(v),
        r matches Err(e) ==> e.pos <= n,
    decreases depth, 0int,
{
    if depth == 0 {
        return Err(ParseError { kind: ErrorKind::NestingTooDeep, pos: i });
    }
    let d2 = depth - 1;
    let start = ws_end(s, i + 1, n);
    let mut pairs: Vec<(String, Value)> = Vec::new();
    let mut cur = start;
    loop
        invariant
            start <= cur <= n,
            obj_keys_unique(pairs@),
            obj_vals_wf(pairs@),
            spec_members(s@, start as int, d2 as nat, Map::<Seq<char>, SpecValue>::empty())
                == spec_members(s@, cur as int, d2 as nat, view_of_obj(pairs@)),
        decreases n - cur,
    {
        let j = if cur < n && s.get_char(cur) == ',' {
            ws_end(s, cur + 1, n)
        } else {
            cur
        };
        if j == n {
            return Err(ParseError { kind: ErrorKind::UnclosedObject, pos: j });
        }
        let c = s.get_char(j);
        if c == '}' {
            return Ok((Value::Object(pairs), j + 1));
        }
        if c != '"' {
            return Err(ParseError { kind: ErrorKind::ExpectedStringKey, pos: j });
        }
        match parse_string_body(s, j + 1, n) {
            Ok((key, k)) => {
                let k1 = ws_end(s, k, n);
                if !(k1 < n && s.get_char(k1) == ':') {
                    return Err(ParseError { kind: ErrorKind::TokenMismatch, pos: k1 });
                }
                let k2 = ws_end(s, k1 + 1, n);
                match parse_value(s, k2, d2, n) {
                    Ok((v, m)) => {
                        let m2 = ws_end(s, m, n);
                        obj_insert(&mut pairs, key, v);
                        cur = m2;
                    },
                    Err(e) => {
                        return Err(e);
                    },
                }
            },
            Err(e) => {
                return Err(e);
            },
        }
    }
}

/// Reads one document from the front of `s`: optional whitespace, exactly
/// one value, optional whitespace.
///
/// On success the result is the parsed tree together with the character
/// position where reading stopped; characters after that position are left
/// for the caller to judge.  On failure it is the reason together with the
/// position it refers to.  Both are exactly what [`spec_json_text`] says of
/// `s`, and a returned tree is well formed: every object in it has unique
/// keys.
pub fn json_text(s: &str) -> (r: Result<(Value, usize), ParseError>)
    ensures
        step_matches(r, spec_json_text(s@)),
        r matches Ok((v, j)) ==> j <= s@.len() && value_wf(v),
        r matches Err(e) ==> e.pos <= s@.len(),
{
    let n = s.unicode_len();
    let i = ws_end(s, 0, n);
    match parse_value(s, i, MAX_DEPTH, n) {
        Ok((v, j)) => {
            let j2 = ws_end(s, j, n);
            Ok((v, j2))
        },
        Err(e) => Err(e),
    }
}

} // verus!

