//! The JSON grammar, written down as spec functions over `Seq<char>`.
//!
//! These functions are the reference that every executable parsing function
//! is proved against: given the input and a starting position they say
//! exactly which value is read, where reading stops, and — on failure —
//! which rule failed and at which position.
//!
//! Two documented deviations from strict JSON are part of the grammar: one
//! comma is tolerated (and dropped) before every array element or object
//! member and before the closing bracket or brace, and the `\uXXXX` string
//! escape is not recognized (it fails as an invalid escape).  Nesting of
//! arrays and objects is bounded by [`MAX_DEPTH`].

use vstd::prelude::*;

use crate::value::SpecValue;

verus! {

/// How deep arrays and objects may nest before parsing fails with
/// [`ErrorKind::NestingTooDeep`]: a guard against unbounded recursion on
/// adversarially nested input.
pub const MAX_DEPTH: usize = 1000;

/// Why a parse failed; a [`ParseError`](crate::parse::ParseError) pairs
/// this with the position the failure refers to.
#[derive(Debug, Clone, Copy, PartialEq, Eq)]
pub enum ErrorKind {
    /// The `:` after an object member's name is absent.
    TokenMismatch,
    /// A string literal's closing quote was not found before the input ended.
    UnterminatedString,
    /// A backslash was followed by a character outside the fixed escape set.
    InvalidEscape,
    /// An array's closing bracket is missing.
    UnclosedArray,
    /// An object's closing brace is missing.
    UnclosedObject,
    /// An object member does not begin with a quoted string.
    ExpectedStringKey,
    /// None of the value alternatives applies at the current position.
    NoValueMatched,
    /// Arrays and objects are nested deeper than [`MAX_DEPTH`].
    NestingTooDeep,
}

/// The four ASCII whitespace characters that may surround JSON tokens:
/// space, horizontal tab, line feed, carriage return.
pub open spec fn is_ws_char(c: char) -> bool {
    c == ' ' || c == '\t' || c == '\n' || c == '\r'
}

/// The first position at or after `i` that does not hold whitespace.
pub open spec fn skip_ws(s: Seq<char>, i: int) -> int
    decreases s.len() - i,
{
    if 0 <= i < s.len() && is_ws_char(s[i]) {
        skip_ws(s, i + 1)
    } else {
        i
    }
}

/// An ASCII decimal digit.
pub open spec fn is_digit(c: char) -> bool {
    ('0' as u32) <= (c as u32) && (c as u32) <= ('9' as u32)
}

/// The first position at or after `i` that does not hold a digit.
pub open spec fn digits_end(s: Seq<char>, i: int) -> int
    decreases s.len() - i,
{
    if 0 <= i < s.len() && is_digit(s[i]) {
        digits_end(s, i + 1)
    } else {
        i
    }
}

/// Where a number literal's optional fraction part (`.` followed by one or
/// more digits) ends, `k` being the end of the integer part.
pub open spec fn frac_end(s: Seq<char>, k: int) -> int {
    if k + 1 < s.len() && s[k] == '.' && is_digit(s[k + 1]) {
        digits_end(s, k + 1)
    } else {
        k
    }
}

/// Where a number literal's optional exponent part (`e` or `E`, an optional
/// sign, one or more digits) ends, `k` being the end of the fraction part.
pub open spec fn exp_end(s: Seq<char>, k: int) -> int {
    if k < s.len() && (s[k] == 'e' || s[k] == 'E') {
        let m = if k + 1 < s.len() && (s[k + 1] == '+' || s[k + 1] == '-') {
            k + 2
        } else {
            k + 1
        };
        if m < s.len() && is_digit(s[m]) {
            digits_end(s, m)
        } else {
            k
        }
    } else {
        k
    }
}

/// Where the number literal starting at `i` ends: an optional minus sign,
/// one or more digits, an optional fraction, an optional exponent.  `None`
/// when no digit follows the optional sign, i.e. no number starts here.
pub open spec fn num_end(s: Seq<char>, i: int) -> Option<int> {
    let j = if 0 <= i < s.len() && s[i] == '-' {
        i + 1
    } else {
        i
    };
    if 0 <= j < s.len() && is_digit(s[j]) {
        Some(exp_end(s, frac_end(s, digits_end(s, j))))
    } else {
        None
    }
}

/// What a string escape code denotes: the fixed set `" \ / b f n r t`.
/// Everything else — the unimplemented `\uXXXX` form included — is an
/// invalid escape.
pub open spec fn escape_char(c: char) -> Option<char> {
    if c == '"' {
        Some('"')
    } else if c == '\\' {
        Some('\\')
    } else if c == '/' {
        Some('/')
    } else if c == 'b' {
        Some('\u{8}')
    } else if c == 'f' {
        Some('\u{c}')
    } else if c == 'n' {
        Some('\n')
    } else if c == 'r' {
        Some('\r')
    } else if c == 't' {
        Some('\t')
    } else {
        None
    }
}

/// Reads the rest of a string literal from `i` (just inside the opening
/// quote) up to the closing quote: `acc` collects the characters decoded so
/// far.  Returns the full contents and the position after the closing
/// quote, or the failure.
pub open spec fn string_body(s: Seq<char>, i: int, acc: Seq<char>) -> Result<
    (Seq<char>, int),
    (ErrorKind, int),
>
    decreases s.len() - i,
{
    if !(0 <= i < s.len()) {
        Err((ErrorKind::UnterminatedString, i))
    } else if s[i] == '"' {
        Ok((acc, i + 1))
    } else if s[i] == '\\' {
        if i + 1 >= s.len() {
            Err((ErrorKind::UnterminatedString, i + 1))
        } else {
            match escape_char(s[i + 1]) {
                Some(c) => string_body(s, i + 2, acc.push(c)),
                None => Err((ErrorKind::InvalidEscape, i + 1)),
            }
        }
    } else {
        string_body(s, i + 1, acc.push(s[i]))
    }
}

/// The literal `true` stands at `i`.
pub open spec fn is_true_at(s: Seq<char>, i: int) -> bool {
    i + 4 <= s.len() && s[i] == 't' && s[i + 1] == 'r' && s[i + 2] == 'u' && s[i + 3] == 'e'
}

/// The literal `false` stands at `i`.
pub open spec fn is_false_at(s: Seq<char>, i: int) -> bool {
    i + 5 <= s.len() && s[i] == 'f' && s[i + 1] == 'a' && s[i + 2] == 'l' && s[i + 3] == 's' && s[i
        + 4] == 'e'
}

/// The literal `null` stands at `i`.
pub open spec fn is_null_at(s: Seq<char>, i: int) -> bool {
    i + 4 <= s.len() && s[i] == 'n' && s[i + 1] == 'u' && s[i + 2] == 'l' && s[i + 3] == 'l'
}

/// Reads one value at `i`: the ordered alternation over string, number,
/// `true`, `false`, object, array and `null`.  Every alternative is decided
/// by its first character, and those characters are pairwise distinct, so
/// deciding by lookahead picks the same branch that trying the alternatives
/// in order would commit to.  When no alternative applies the failure is
/// `NoValueMatched` at `i`.
pub open spec fn spec_value(s: Seq<char>, i: int, depth: nat) -> Result<
    (SpecValue, int),
    (ErrorKind, int),
>
    decreases depth, 1int, s.len() - i,
{
    if !(0 <= i < s.len()) {
        Err((ErrorKind::NoValueMatched, i))
    } else if s[i] == '"' {
        match string_body(s, i + 1, Seq::<char>::empty()) {
            Ok((t, j)) => Ok((SpecValue::Str(t), j)),
            Err(e) => Err(e),
        }
    } else if s[i] == '-' || is_digit(s[i]) {
        match num_end(s, i) {
            Some(j) => Ok((SpecValue::Num(s.subrange(i, j)), j)),
            None => Err((ErrorKind::NoValueMatched, i)),
        }
    } else if s[i] == 't' {
        if is_true_at(s, i) {
            Ok((SpecValue::Bool(true), i + 4))
        } else {
            Err((ErrorKind::NoValueMatched, i))
        }
    } else if s[i] == 'f' {
        if is_false_at(s, i) {
            Ok((SpecValue::Bool(false), i + 5))
        } else {
            Err((ErrorKind::NoValueMatched, i))
        }
    } else if s[i] == '{' {
        spec_object(s, i, depth)
    } else if s[i] == '[' {
        spec_array(s, i, depth)
    } else if s[i] == 'n' {
        if is_null_at(s, i) {
            Ok((SpecValue::Null, i + 4))
        } else {
            Err((ErrorKind::NoValueMatched, i))
        }
    } else {
        Err((ErrorKind::NoValueMatched, i))
    }
}

/// Reads an array standing at `i` (where `s[i]` is `[`): the opening
/// bracket, optional whitespace, then the elements.
pub open spec fn spec_array(s: Seq<char>, i: int, depth: nat) -> Result<
    (SpecValue, int),
    (ErrorKind, int),
>
    decreases depth, 0int, s.len() - i,
{
    if depth == 0 {
        Err((ErrorKind::NestingTooDeep, i))
    } else {
        spec_elems(s, skip_ws(s, i + 1), (depth - 1) as nat, Seq::<SpecValue>::empty())
    }
}

/// Reads array elements from `i` (a position past any whitespace) until
/// the closing bracket: each element may be preceded by one comma, and one
/// comma is tolerated before the closing bracket.  `acc` collects the
/// elements read so far.
pub open spec fn spec_elems(s: Seq<char>, i: int, depth: nat, acc: Seq<SpecValue>) -> Result<
    (SpecValue, int),
    (ErrorKind, int),
>
    decreases depth, 2int, s.len() - i,
{
    let j = if 0 <= i < s.len() && s[i] == ',' {
        skip_ws(s, i + 1)
    } else {
        i
    };
    if !(0 <= j < s.len()) {
        Err((ErrorKind::UnclosedArray, j))
    } else if s[j] == ']' {
        Ok((SpecValue::Arr(acc), j + 1))
    } else {
        match spec_value(s, j, depth) {
            Ok((v, k)) => {
                let k2 = skip_ws(s, k);
                if i < k2 <= s.len() {
                    spec_elems(s, k2, depth, acc.push(v))
                } else {
                    // Never reached — a read value always ends past where
                    // it began and inside the input (lemma_value_advances);
                    // the test only guards the decreases measure.
                    Err((ErrorKind::UnclosedArray, j))
                }
            },
            Err(e) => Err(e),
        }
    }
}

/// Reads an object standing at `i` (where `s[i]` is `{`): the opening
/// brace, optional whitespace, then the members.
pub open spec fn spec_object(s: Seq<char>, i: int, depth: nat) -> Result<
    (SpecValue, int),
    (ErrorKind, int),
>
    decreases depth, 0int, s.len() - i,
{
    if depth == 0 {
        Err((ErrorKind::NestingTooDeep, i))
    } else {
        spec_members(s, skip_ws(s, i + 1), (depth - 1) as nat, Map::<Seq<char>, SpecValue>::empty())
    }
}

/// Reads object members (`"name" : value`) from `i` (a position past any
/// whitespace) until the closing brace: each member may be preceded by one
/// comma, one comma is tolerated before the closing brace, and a repeated
/// name overwrites the earlier value.  `acc` collects the mapping built so
/// far.
pub open spec fn spec_members(
    s: Seq<char>,
    i: int,
    depth: nat,
    acc: Map<Seq<char>, SpecValue>,
) -> Result<(SpecValue, int), (ErrorKind, int)>
    decreases depth, 2int, s.len() - i,
{
    let j = if 0 <= i < s.len() && s[i] == ',' {
        skip_ws(s, i + 1)
    } else {
        i
    };
    if !(0 <= j < s.len()) {
        Err((ErrorKind::UnclosedObject, j))
    } else if s[j] == '}' {
        Ok((SpecValue::Obj(acc), j + 1))
    } else if s[j] != '"' {
        Err((ErrorKind::ExpectedStringKey, j))
    } else {
        match string_body(s, j + 1, Seq::<char>::empty()) {
            Ok((key, k)) => {
                let k1 = skip_ws(s, k);
                if !(k1 < s.len() && s[k1] == ':') {
                    Err((ErrorKind::TokenMismatch, k1))
                } else {
                    let k2 = skip_ws(s, k1 + 1);
                    match spec_value(s, k2, depth) {
                        Ok((v, m)) => {
                            let m2 = skip_ws(s, m);
                            if i < m2 <= s.len() {
                                spec_members(s, m2, depth, acc.insert(key, v))
                            } else {
                                // Never reached, as in spec_elems
                                // (lemma_value_advances): the test only
                                // guards the decreases measure.
                                Err((ErrorKind::UnclosedObject, j))
                            }
                        },
                        Err(e) => Err(e),
                    }
                }
            },
            Err(e) => Err(e),
        }
    }
}

/// Reads one document: optional whitespace, exactly one value, optional
/// whitespace.  Bytes after the trailing whitespace are not rejected; the
/// returned position says how far reading went.
pub open spec fn spec_json_text(s: Seq<char>) -> Result<(SpecValue, int), (ErrorKind, int)> {
    match spec_value(s, skip_ws(s, 0), MAX_DEPTH as nat) {
        Ok((v, j)) => Ok((v, skip_ws(s, j))),
        Err(e) => Err(e),
    }
}

/// Skipping whitespace never moves backwards nor past the input's end.
pub proof fn lemma_skip_ws_bounds(s: Seq<char>, i: int)
    requires
        0 <= i <= s.len(),
    ensures
        i <= skip_ws(s, i) <= s.len(),
    decreases s.len() - i,
{
    if i < s.len() && is_ws_char(s[i]) {
        lemma_skip_ws_bounds(s, i + 1);
    }
}

/// Scanning digits never moves backwards nor past the input's end.
pub proof fn lemma_digits_end_bounds(s: Seq<char>, i: int)
    requires
        0 <= i <= s.len(),
    ensures
        i <= digits_end(s, i) <= s.len(),
    decreases s.len() - i,
{
    if i < s.len() && is_digit(s[i]) {
        lemma_digits_end_bounds(s, i + 1);
    }
}

/// A number literal that is read ends past where it began and inside the
/// input.
pub proof fn lemma_num_end_bounds(s: Seq<char>, i: int)
    requires
        0 <= i <= s.len(),
    ensures
        num_end(s, i) matches Some(j) ==> i < j <= s.len(),
{
    let j = if 0 <= i < s.len() && s[i] == '-' {
        i + 1
    } else {
        i
    };
    if 0 <= j < s.len() && is_digit(s[j]) {
        // The first digit is always consumed, so the literal is not empty.
        lemma_digits_end_bounds(s, j + 1);
        assert(digits_end(s, j) == digits_end(s, j + 1));
        let k = digits_end(s, j);
        if k + 1 < s.len() && s[k] == '.' && is_digit(s[k + 1]) {
            lemma_digits_end_bounds(s, k + 1);
        }
        let k2 = frac_end(s, k);
        if k2 < s.len() && (s[k2] == 'e' || s[k2] == 'E') {
            let m = if k2 + 1 < s.len() && (s[k2 + 1] == '+' || s[k2 + 1] == '-') {
                k2 + 2
            } else {
                k2 + 1
            };
            if m < s.len() && is_digit(s[m]) {
                lemma_digits_end_bounds(s, m);
            }
        }
    }
}

/// A string literal that is read ends past where it began and inside the
/// input, and a string failure points into the input.
pub proof fn lemma_string_body_bounds(s: Seq<char>, i: int, acc: Seq<char>)
    requires
        0 <= i <= s.len(),
    ensures
        string_body(s, i, acc) matches Ok((t, j)) ==> i < j <= s.len(),
        string_body(s, i, acc) matches Err((k, p)) ==> 0 <= p <= s.len(),
    decreases s.len() - i,
{
    if i < s.len() {
        if s[i] == '"' {
        } else if s[i] == '\\' {
            if i + 1 < s.len() && escape_char(s[i + 1]) is Some {
                lemma_string_body_bounds(s, i + 2, acc.push(escape_char(s[i + 1])->0));
            }
        } else {
            lemma_string_body_bounds(s, i + 1, acc.push(s[i]));
        }
    }
}

/// A value that is read always ends past where it began and inside the
/// input, and a failure always points into the input.  In particular the
/// guard branches of [`spec_elems`] and [`spec_members`] are never taken.
pub proof fn lemma_value_advances(s: Seq<char>, i: int, depth: nat)
    requires
        0 <= i <= s.len(),
    ensures
        spec_value(s, i, depth) matches Ok((v, j)) ==> i < j <= s.len(),
        spec_value(s, i, depth) matches Err((k, p)) ==> 0 <= p <= s.len(),
    decreases depth, 1int, s.len() - i,
{
    if i < s.len() {
        if s[i] == '"' {
            lemma_string_body_bounds(s, i + 1, Seq::<char>::empty());
        } else if s[i] == '-' || is_digit(s[i]) {
            lemma_num_end_bounds(s, i);
        } else if s[i] == '{' {
            lemma_object_advances(s, i, depth);
        } else if s[i] == '[' {
            lemma_array_advances(s, i, depth);
        }
    }
}

/// As [`lemma_value_advances`], for an array standing at `i`.
pub proof fn lemma_array_advances(s: Seq<char>, i: int, depth: nat)
    requires
        0 <= i < s.len(),
    ensures
        spec_array(s, i, depth) matches Ok((v, j)) ==> i < j <= s.len(),
        spec_array(s, i, depth) matches Err((k, p)) ==> 0 <= p <= s.len(),
    decreases depth, 0int, s.len() - i,
{
    if depth > 0 {
        lemma_skip_ws_bounds(s, i + 1);
        lemma_elems_advance(s, skip_ws(s, i + 1), (depth - 1) as nat, Seq::<SpecValue>::empty());
    }
}

/// As [`lemma_value_advances`], for the elements of an array.
pub proof fn lemma_elems_advance(s: Seq<char>, i: int, depth: nat, acc: Seq<SpecValue>)
    requires
        0 <= i <= s.len(),
    ensures
        spec_elems(s, i, depth, acc) matches Ok((v, j)) ==> i < j <= s.len(),
        spec_elems(s, i, depth, acc) matches Err((k, p)) ==> 0 <= p <= s.len(),
    decreases depth, 2int, s.len() - i,
{
    let j = if 0 <= i < s.len() && s[i] == ',' {
        skip_ws(s, i + 1)
    } else {
        i
    };
    if 0 <= i < s.len() && s[i] == ',' {
        lemma_skip_ws_bounds(s, i + 1);
    }
    if 0 <= j < s.len() && s[j] != ']' {
        lemma_value_advances(s, j, depth);
        match spec_value(s, j, depth) {
            Ok((v, k)) => {
                lemma_skip_ws_bounds(s, k);
                let k2 = skip_ws(s, k);
                if i < k2 <= s.len() {
                    lemma_elems_advance(s, k2, depth, acc.push(v));
                }
            },
            Err(_) => {},
        }
    }
}

/// As [`lemma_value_advances`], for an object standing at `i`.
pub proof fn lemma_object_advances(s: Seq<char>, i: int, depth: nat)
    requires
        0 <= i < s.len(),
    ensures
        spec_object(s, i, depth) matches Ok((v, j)) ==> i < j <= s.len(),
        spec_object(s, i, depth) matches Err((k, p)) ==> 0 <= p <= s.len(),
    decreases depth, 0int, s.len() - i,
{
    if depth > 0 {
        lemma_skip_ws_bounds(s, i + 1);
        lemma_members_advance(
            s,
            skip_ws(s, i + 1),
            (depth - 1) as nat,
            Map::<Seq<char>, SpecValue>::empty(),
        );
    }
}

/// As [`lemma_value_advances`], for the members of an object.
pub proof fn lemma_members_advance(s: Seq<char>, i: int, depth: nat, acc: Map<Seq<char>, SpecValue>)
    requires
        0 <= i <= s.len(),
    ensures
        spec_members(s, i, depth, acc) matches Ok((v, j)) ==> i < j <= s.len(),
        spec_members(s, i, depth, acc) matches Err((k, p)) ==> 0 <= p <= s.len(),
    decreases depth, 2int, s.len() - i,
{
    let j = if 0 <= i < s.len() && s[i] == ',' {
        skip_ws(s, i + 1)
    } else {
        i
    };
    if 0 <= i < s.len() && s[i] == ',' {
        lemma_skip_ws_bounds(s, i + 1);
    }
    if 0 <= j < s.len() && s[j] != '}' && s[j] == '"' {
        lemma_string_body_bounds(s, j + 1, Seq::<char>::empty());
        match string_body(s, j + 1, Seq::<char>::empty()) {
            Ok((key, k)) => {
                lemma_skip_ws_bounds(s, k);
                let k1 = skip_ws(s, k);
                if k1 < s.len() && s[k1] == ':' {
                    lemma_skip_ws_bounds(s, k1 + 1);
                    let k2 = skip_ws(s, k1 + 1);
                    lemma_value_advances(s, k2, depth);
                    match spec_value(s, k2, depth) {
                        Ok((v, m)) => {
                            lemma_skip_ws_bounds(s, m);
                            let m2 = skip_ws(s, m);
                            if i < m2 <= s.len() {
                                lemma_members_advance(s, m2, depth, acc.insert(key, v));
                            }
                        },
                        Err(_) => {},
                    }
                }
            },
            Err(_) => {},
        }
    }
}

/// Skipping whitespace reaches the input's end when everything from `i`
/// on is whitespace.
proof fn lemma_skip_ws_all(s: Seq<char>, i: int)
    requires
        0 <= i <= s.len(),
        forall|k: int| 0 <= k < s.len() ==> is_ws_char(s[k]),
    ensures
        skip_ws(s, i) == s.len(),
    decreases s.len() - i,
{
    if i < s.len() {
        lemma_skip_ws_all(s, i + 1);
    }
}

/// Law: an input that holds nothing but whitespace — the empty input
/// included — yields no document: parsing fails with `NoValueMatched`,
/// reported at the position after the whitespace, the input's end.
pub proof fn lemma_ws_only_fails(s: Seq<char>)
    requires
        forall|k: int| 0 <= k < s.len() ==> is_ws_char(s[k]),
    ensures
        spec_json_text(s) == Err::<(SpecValue, int), (ErrorKind, int)>(
            (ErrorKind::NoValueMatched, s.len() as int),
        ),
{
    lemma_skip_ws_all(s, 0);
}

} // verus!
