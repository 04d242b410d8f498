//! A JSON reader: values, the grammar it accepts, and the lookups the
//! GitHub responses and the feed file need.
//!
//! Numbers are kept as the text they were written with; whether that text
//! is a number is decided by the grammar `f64::from_str` accepts.
use vstd::prelude::*;
use crate::config::is_digit;
use crate::text::{chars_of, push_chars, same_text, string_of, string_order, TextOrder};

verus! {

/// A JSON value as the reader gives it. Booleans do not keep their value.
pub enum JsonV {
    Null,
    Bool,
    Number(Seq<char>),
    Str(Seq<char>),
    Array(Seq<JsonV>),
    Object(Seq<(Seq<char>, JsonV)>),
}

/// A parsed JSON value. Object members are kept with distinct keys; a
/// later member replaces the value of an earlier one with its key.
#[derive(Debug)]
pub enum Json {
    Null,
    Bool,
    Number(String),
    String(String),
    Array(Vec<Json>),
    Object(Vec<(String, Json)>),
}

impl Json {
    pub open spec fn view(&self) -> JsonV
        decreases self,
    {
        match self {
            Json::Null => JsonV::Null,
            Json::Bool => JsonV::Bool,
            Json::Number(n) => JsonV::Number(n@),
            Json::String(s) => JsonV::Str(s@),
            Json::Array(v) => JsonV::Array(
                Seq::new(
                    v@.len(),
                    |i: int|
                        if 0 <= i < v@.len() {
                            v@[i].view()
                        } else {
                            JsonV::Null
                        },
                ),
            ),
            Json::Object(m) => JsonV::Object(
                Seq::new(
                    m@.len(),
                    |i: int|
                        if 0 <= i < m@.len() {
                            (m@[i].0@, m@[i].1.view())
                        } else {
                            (Seq::empty(), JsonV::Null)
                        },
                ),
            ),
        }
    }
}

/// The views of a sequence of values.
pub open spec fn json_views(v: Seq<Json>) -> Seq<JsonV> {
    Seq::new(
        v.len(),
        |i: int|
            if 0 <= i < v.len() {
                v[i].view()
            } else {
                JsonV::Null
            },
    )
}

/// The views of a sequence of object members.
pub open spec fn member_views(m: Seq<(String, Json)>) -> Seq<(Seq<char>, JsonV)> {
    Seq::new(
        m.len(),
        |i: int|
            if 0 <= i < m.len() {
                (m[i].0@, m[i].1.view())
            } else {
                (Seq::empty(), JsonV::Null)
            },
    )
}

pub proof fn lemma_array_view(v: Vec<Json>)
    ensures
        Json::Array(v)@ == JsonV::Array(json_views(v@)),
{
    assert(Json::Array(v)@->Array_0 =~= json_views(v@));
}

pub proof fn lemma_object_view(m: Vec<(String, Json)>)
    ensures
        Json::Object(m)@ == JsonV::Object(member_views(m@)),
{
    assert(Json::Object(m)@->Object_0 =~= member_views(m@));
}

/// The whitespace JSON allows between tokens.
pub open spec fn is_json_ws(c: char) -> bool {
    c == ' ' || c == '\n' || c == '\r' || c == '\t'
}

/// The position after the whitespace that starts at `p`.
pub open spec fn ws_end(s: Seq<char>, p: int) -> int
    decreases s.len() - p,
{
    if 0 <= p < s.len() && is_json_ws(s[p]) {
        ws_end(s, p + 1)
    } else {
        p
    }
}

pub proof fn lemma_ws_end(s: Seq<char>, p: int)
    ensures
        p <= ws_end(s, p),
        0 <= p <= s.len() ==> ws_end(s, p) <= s.len(),
        !(0 <= p <= s.len()) ==> ws_end(s, p) == p,
        ws_end(s, p) < s.len() && 0 <= p ==> !is_json_ws(s[ws_end(s, p)]),
        forall|k: int| p <= k < ws_end(s, p) ==> is_json_ws(#[trigger] s[k]),
    decreases s.len() - p,
{
    if 0 <= p < s.len() && is_json_ws(s[p]) {
        lemma_ws_end(s, p + 1);
    }
}

/// The value of a hexadecimal digit (`char::to_digit(16)`).
pub open spec fn hex_value(c: char) -> Option<int> {
    if '0' <= c && c <= '9' {
        Some((c as int) - ('0' as int))
    } else if 'a' <= c && c <= 'f' {
        Some((c as int) - ('a' as int) + 10)
    } else if 'A' <= c && c <= 'F' {
        Some((c as int) - ('A' as int) + 10)
    } else {
        None
    }
}

/// The value of the four hexadecimal digits at `p`, if they are there.
pub open spec fn hex4(s: Seq<char>, p: int) -> Option<int> {
    if 0 <= p && p + 4 <= s.len() && hex_value(s[p]) is Some && hex_value(s[p + 1]) is Some
        && hex_value(s[p + 2]) is Some && hex_value(s[p + 3]) is Some {
        Some(
            ((hex_value(s[p])->0 * 16 + hex_value(s[p + 1])->0) * 16 + hex_value(s[p + 2])->0) * 16
                + hex_value(s[p + 3])->0,
        )
    } else {
        None
    }
}

/// The character with the given code point (`char::from_u32`).
pub open spec fn char_of_code(code: int) -> Option<char> {
    if (0 <= code < 0xD800) || (0xE000 <= code <= 0x10FFFF) {
        Some(code as char)
    } else {
        None
    }
}

/// `char::from_u32` gives the character with that code point, and nothing
/// for a surrogate or a value past the last code point.
pub assume_specification[ core::char::from_u32 ](i: u32) -> (r: Option<char>)
    ensures
        r == char_of_code(i as int),
;

/// The rest of a string literal from `p`, with `acc` read so far: the
/// characters up to the closing quote, the escapes undone; a `\u` escape
/// that is no character (a lone surrogate) adds nothing.
pub open spec fn string_body(s: Seq<char>, p: int, acc: Seq<char>) -> Result<
    (Seq<char>, int),
    Seq<char>,
>
    decreases s.len() - p,
{
    if p < 0 || p >= s.len() {
        Err("unterminated string"@)
    } else {
        let c = s[p];
        if c == '"' {
            Ok((acc, p + 1))
        } else if c == '\\' {
            if p + 1 >= s.len() {
                Err("unterminated escape"@)
            } else {
                let e = s[p + 1];
                if e == '"' || e == '\\' || e == '/' {
                    string_body(s, p + 2, acc.push(e))
                } else if e == 'b' {
                    string_body(s, p + 2, acc.push('\u{8}'))
                } else if e == 'f' {
                    string_body(s, p + 2, acc.push('\u{c}'))
                } else if e == 'n' {
                    string_body(s, p + 2, acc.push('\n'))
                } else if e == 'r' {
                    string_body(s, p + 2, acc.push('\r'))
                } else if e == 't' {
                    string_body(s, p + 2, acc.push('\t'))
                } else if e == 'u' {
                    match hex4(s, p + 2) {
                        Some(code) => string_body(
                            s,
                            p + 6,
                            match char_of_code(code) {
                                Some(ch) => acc.push(ch),
                                None => acc,
                            },
                        ),
                        None => Err("invalid unicode escape"@),
                    }
                } else {
                    Err("invalid escape "@ + seq![e])
                }
            }
        } else {
            string_body(s, p + 1, acc.push(c))
        }
    }
}

pub proof fn lemma_string_body_advances(s: Seq<char>, p: int, acc: Seq<char>)
    ensures
        string_body(s, p, acc) matches Ok((t, r)) ==> p < r <= s.len(),
    decreases s.len() - p,
{
    if 0 <= p < s.len() {
        let c = s[p];
        if c == '\\' && p + 1 < s.len() {
            let e = s[p + 1];
            if e == 'u' {
                if let Some(code) = hex4(s, p + 2) {
                    lemma_string_body_advances(
                        s,
                        p + 6,
                        match char_of_code(code) {
                            Some(ch) => acc.push(ch),
                            None => acc,
                        },
                    );
                }
            } else if e == '"' || e == '\\' || e == '/' {
                lemma_string_body_advances(s, p + 2, acc.push(e));
            } else if e == 'b' {
                lemma_string_body_advances(s, p + 2, acc.push('\u{8}'));
            } else if e == 'f' {
                lemma_string_body_advances(s, p + 2, acc.push('\u{c}'));
            } else if e == 'n' {
                lemma_string_body_advances(s, p + 2, acc.push('\n'));
            } else if e == 'r' {
                lemma_string_body_advances(s, p + 2, acc.push('\r'));
            } else if e == 't' {
                lemma_string_body_advances(s, p + 2, acc.push('\t'));
            }
        } else if c != '"' && c != '\\' {
            lemma_string_body_advances(s, p + 1, acc.push(c));
        }
    }
}

/// A string literal at `p`: the opening quote, then its body.
pub open spec fn string_lit(s: Seq<char>, p: int) -> Result<(Seq<char>, int), Seq<char>> {
    if 0 <= p < s.len() && s[p] == '"' {
        string_body(s, p + 1, Seq::empty())
    } else {
        Err("expected "@ + seq!['"'])
    }
}

/// The keyword `lit` at `p`: its end, or the error naming it.
pub open spec fn literal_at(s: Seq<char>, p: int, lit: Seq<char>) -> Result<int, Seq<char>> {
    if 0 <= p && p + lit.len() <= s.len() && s.subrange(p, p + lit.len()) == lit {
        Ok(p + lit.len())
    } else {
        Err("expected "@ + lit)
    }
}

/// The characters a number token may hold.
pub open spec fn is_number_char(c: char) -> bool {
    c == '-' || c == '+' || c == '.' || c == 'e' || c == 'E' || is_digit(c)
}

/// The end of the run of number characters from `p`.
pub open spec fn number_end(s: Seq<char>, p: int) -> int
    decreases s.len() - p,
{
    if 0 <= p < s.len() && is_number_char(s[p]) {
        number_end(s, p + 1)
    } else {
        p
    }
}

pub proof fn lemma_number_end(s: Seq<char>, p: int)
    ensures
        p <= number_end(s, p),
        0 <= p <= s.len() ==> number_end(s, p) <= s.len(),
        0 <= p < s.len() && is_number_char(s[p]) ==> p < number_end(s, p),
    decreases s.len() - p,
{
    if 0 <= p < s.len() && is_number_char(s[p]) {
        lemma_number_end(s, p + 1);
    }
}

/// The end of the run of ASCII digits from `p`.
pub open spec fn digit_run(s: Seq<char>, p: int) -> int
    decreases s.len() - p,
{
    if 0 <= p < s.len() && is_digit(s[p]) {
        digit_run(s, p + 1)
    } else {
        p
    }
}

/// The texts `f64::from_str` reads as a finite number or an infinity
/// (among texts made of digits, signs, points and exponent letters): an
/// optional sign, digits with an optional fraction (at least one digit in
/// all), and an optional exponent with an optional sign and one or more digits.
pub open spec fn float_text(t: Seq<char>) -> bool {
    let a = if t.len() > 0 && (t[0] == '+' || t[0] == '-') {
        1int
    } else {
        0int
    };
    let b = digit_run(t, a);
    let c = if b < t.len() && t[b] == '.' {
        digit_run(t, b + 1)
    } else {
        b
    };
    let frac_digits = if b < t.len() && t[b] == '.' {
        c - (b + 1)
    } else {
        0
    };
    if !(b > a || frac_digits > 0) {
        false
    } else if c == t.len() {
        true
    } else if t[c] == 'e' || t[c] == 'E' {
        let d = if c + 1 < t.len() && (t[c + 1] == '+' || t[c + 1] == '-') {
            c + 2
        } else {
            c + 1
        };
        let e = digit_run(t, d);
        e > d && e == t.len()
    } else {
        false
    }
}

/// A number token at `p`.
pub open spec fn number_at(s: Seq<char>, p: int) -> Result<(JsonV, int), Seq<char>> {
    let e = number_end(s, p);
    let raw = s.subrange(p, e);
    if float_text(raw) {
        Ok((JsonV::Number(raw), e))
    } else {
        Err("invalid number "@ + raw)
    }
}

/// The members with `k` set to `v`: the value of a member with that key is
/// replaced, otherwise the member is added at the end.
pub open spec fn member_insert(m: Seq<(Seq<char>, JsonV)>, k: Seq<char>, v: JsonV) -> Seq<
    (Seq<char>, JsonV),
> {
    if exists|i: int| 0 <= i < m.len() && (#[trigger] m[i]).0 == k {
        let i = choose|i: int| 0 <= i < m.len() && (#[trigger] m[i]).0 == k;
        m.update(i, (k, v))
    } else {
        m.push((k, v))
    }
}

/// Each key occurs at most once.
pub open spec fn distinct_keys(m: Seq<(Seq<char>, JsonV)>) -> bool {
    forall|i: int, j: int| 0 <= i < j < m.len() ==> (#[trigger] m[i]).0 != (#[trigger] m[j]).0
}

/// A JSON value starting at `p`, after any whitespace.
pub open spec fn value_at(s: Seq<char>, p: int) -> Result<(JsonV, int), Seq<char>>
    decreases s.len() - p, 0int,
{
    let q = ws_end(s, p);
    if p < 0 || p > s.len() || q >= s.len() {
        Err("invalid JSON value"@)
    } else {
        proof {
            lemma_ws_end(s, p);
        }
        let c = s[q];
        if c == 'n' {
            match literal_at(s, q, "null"@) {
                Ok(e) => Ok((JsonV::Null, e)),
                Err(m) => Err(m),
            }
        } else if c == 't' {
            match literal_at(s, q, "true"@) {
                Ok(e) => Ok((JsonV::Bool, e)),
                Err(m) => Err(m),
            }
        } else if c == 'f' {
            match literal_at(s, q, "false"@) {
                Ok(e) => Ok((JsonV::Bool, e)),
                Err(m) => Err(m),
            }
        } else if c == '"' {
            match string_lit(s, q) {
                Ok((t, e)) => Ok((JsonV::Str(t), e)),
                Err(m) => Err(m),
            }
        } else if c == '[' {
            array_items(s, q + 1, Seq::empty())
        } else if c == '{' {
            object_members(s, q + 1, Seq::empty())
        } else if c == '-' || is_digit(c) {
            number_at(s, q)
        } else {
            Err("invalid JSON value"@)
        }
    }
}

/// The rest of an array from `p`, with the items `acc` read so far.
pub open spec fn array_items(s: Seq<char>, p: int, acc: Seq<JsonV>) -> Result<
    (JsonV, int),
    Seq<char>,
>
    decreases s.len() - p, 1int,
{
    let q = ws_end(s, p);
    if p < 0 || p > s.len() {
        Err("expected ',' or ']'"@)
    } else if q < s.len() && s[q] == ']' {
        Ok((JsonV::Array(acc), q + 1))
    } else {
        proof {
            lemma_ws_end(s, p);
        }
        match value_at(s, q) {
            Err(m) => Err(m),
            Ok((v, r)) => {
                let t = ws_end(s, r);
                proof {
                    lemma_ws_end(s, r);
                }
                if r <= q {
                    Err("expected ',' or ']'"@)
                } else if t < s.len() && s[t] == ',' {
                    array_items(s, t + 1, acc.push(v))
                } else if t < s.len() && s[t] == ']' {
                    Ok((JsonV::Array(acc.push(v)), t + 1))
                } else {
                    Err("expected ',' or ']'"@)
                }
            },
        }
    }
}

/// The rest of an object from `p`, with the members `acc` read so far.
pub open spec fn object_members(s: Seq<char>, p: int, acc: Seq<(Seq<char>, JsonV)>) -> Result<
    (JsonV, int),
    Seq<char>,
>
    decreases s.len() - p, 1int,
{
    let q = ws_end(s, p);
    if p < 0 || p > s.len() {
        Err("expected ',' or '}'"@)
    } else if q < s.len() && s[q] == '}' {
        Ok((JsonV::Object(acc), q + 1))
    } else {
        proof {
            lemma_ws_end(s, p);
        }
        match string_lit(s, q) {
            Err(m) => Err(m),
            Ok((k, r1)) => {
                proof {
                    if 0 <= q < s.len() && s[q] == '"' {
                        lemma_string_body_advances(s, q + 1, Seq::empty());
                    }
                    lemma_ws_end(s, r1);
                }
                let t1 = ws_end(s, r1);
                if !(t1 < s.len() && s[t1] == ':') {
                    Err("expected "@ + seq![':'])
                } else {
                    match value_at(s, t1 + 1) {
                        Err(m) => Err(m),
                        Ok((v, r2)) => {
                            let t2 = ws_end(s, r2);
                            proof {
                                lemma_ws_end(s, r2);
                            }
                            let acc2 = member_insert(acc, k, v);
                            if r2 <= t1 {
                                Err("expected ',' or '}'"@)
                            } else if t2 < s.len() && s[t2] == ',' {
                                object_members(s, t2 + 1, acc2)
                            } else if t2 < s.len() && s[t2] == '}' {
                                Ok((JsonV::Object(acc2), t2 + 1))
                            } else {
                                Err("expected ',' or '}'"@)
                            }
                        },
                    }
                }
            },
        }
    }
}

/// What `parse_json` gives for a text: one value, with nothing but
/// whitespace after it.
pub open spec fn parse_json_text(s: Seq<char>) -> Result<JsonV, Seq<char>> {
    match value_at(s, 0) {
        Ok((v, r)) => if ws_end(s, r) == s.len() {
            Ok(v)
        } else {
            Err("trailing JSON input"@)
        },
        Err(m) => Err(m),
    }
}

pub proof fn lemma_value_advances(s: Seq<char>, p: int)
    ensures
        value_at(s, p) matches Ok((v, r)) ==> p < r <= s.len(),
    decreases s.len() - p, 0int,
{
    let q = ws_end(s, p);
    lemma_ws_end(s, p);
    reveal_strlit("null");
    reveal_strlit("true");
    reveal_strlit("false");
    if 0 <= p <= s.len() && q < s.len() {
        let c = s[q];
        if c == '"' {
            lemma_string_body_advances(s, q + 1, Seq::empty());
        } else if c == '[' {
            lemma_array_advances(s, q + 1, Seq::empty());
        } else if c == '{' {
            lemma_object_advances(s, q + 1, Seq::empty());
        } else if c == '-' || is_digit(c) {
            lemma_number_end(s, q);
        }
    }
}

pub proof fn lemma_array_advances(s: Seq<char>, p: int, acc: Seq<JsonV>)
    ensures
        array_items(s, p, acc) matches Ok((v, r)) ==> p < r <= s.len(),
    decreases s.len() - p, 1int,
{
    let q = ws_end(s, p);
    lemma_ws_end(s, p);
    if 0 <= p <= s.len() && !(q < s.len() && s[q] == ']') {
        lemma_value_advances(s, q);
        if let Ok((v, r)) = value_at(s, q) {
            lemma_ws_end(s, r);
            let t = ws_end(s, r);
            if r > q && t < s.len() && s[t] == ',' {
                lemma_array_advances(s, t + 1, acc.push(v));
            }
        }
    }
}

pub proof fn lemma_object_advances(s: Seq<char>, p: int, acc: Seq<(Seq<char>, JsonV)>)
    ensures
        object_members(s, p, acc) matches Ok((v, r)) ==> p < r <= s.len(),
    decreases s.len() - p, 1int,
{
    let q = ws_end(s, p);
    lemma_ws_end(s, p);
    if 0 <= p <= s.len() && !(q < s.len() && s[q] == '}') {
        if let Ok((k, r1)) = string_lit(s, q) {
            lemma_string_body_advances(s, q + 1, Seq::empty());
            lemma_ws_end(s, r1);
            let t1 = ws_end(s, r1);
            if t1 < s.len() && s[t1] == ':' {
                lemma_value_advances(s, t1 + 1);
                if let Ok((v, r2)) = value_at(s, t1 + 1) {
                    lemma_ws_end(s, r2);
                    let t2 = ws_end(s, r2);
                    if r2 > t1 && t2 < s.len() && s[t2] == ',' {
                        lemma_object_advances(s, t2 + 1, member_insert(acc, k, v));
                    }
                }
            }
        }
    }
}

/// Whether `c` is JSON whitespace.
pub fn is_json_ws_exec(c: char) -> (r: bool)
    ensures
        r == is_json_ws(c),
{
    c == ' ' || c == '\n' || c == '\r' || c == '\t'
}

/// The value of a hexadecimal digit.
pub fn hex_value_exec(c: char) -> (r: Option<u32>)
    ensures
        r matches Some(d) ==> hex_value(c) == Some(d as int) && d < 16,
        r is None ==> hex_value(c) is None,
{
    if '0' <= c && c <= '9' {
        Some(c as u32 - '0' as u32)
    } else if 'a' <= c && c <= 'f' {
        Some(c as u32 - 'a' as u32 + 10)
    } else if 'A' <= c && c <= 'F' {
        Some(c as u32 - 'A' as u32 + 10)
    } else {
        None
    }
}

/// Whether `c` is an ASCII digit.
pub fn is_digit_exec(c: char) -> (r: bool)
    ensures
        r == is_digit(c),
{
    '0' <= c && c <= '9'
}

/// The end of the run of ASCII digits from `p`.
fn digit_run_exec(t: &[char], p: usize) -> (r: usize)
    requires
        p <= t@.len(),
    ensures
        r as int == digit_run(t@, p as int),
        p <= r <= t@.len(),
{
    let mut i = p;
    while i < t.len() && is_digit_exec(t[i])
        invariant
            p <= i <= t@.len(),
            digit_run(t@, p as int) == digit_run(t@, i as int),
        decreases t@.len() - i,
    {
        i += 1;
    }
    i
}

/// Whether `t` is a number as `f64::from_str` reads it (see `float_text`).
pub fn is_float_text(t: &[char]) -> (r: bool)
    ensures
        r == float_text(t@),
{
    let a: usize = if t.len() > 0 && (t[0] == '+' || t[0] == '-') {
        1
    } else {
        0
    };
    let b = digit_run_exec(t, a);
    let dot = b < t.len() && t[b] == '.';
    let c = if dot {
        digit_run_exec(t, b + 1)
    } else {
        b
    };
    let frac_digits: usize = if dot {
        c - (b + 1)
    } else {
        0
    };
    if !(b > a || frac_digits > 0) {
        false
    } else if c == t.len() {
        true
    } else if t[c] == 'e' || t[c] == 'E' {
        let d = if c + 1 < t.len() && (t[c + 1] == '+' || t[c + 1] == '-') {
            c + 2
        } else {
            c + 1
        };
        let e = digit_run_exec(t, d);
        e > d && e == t.len()
    } else {
        false
    }
}

/// A reader over the characters of a JSON text.
pub struct Parser {
    pub chars: Vec<char>,
    pub pos: usize,
}

impl Parser {
    /// The position lies within the text or at its end.
    pub open spec fn wf(&self) -> bool {
        self.pos <= self.chars@.len()
    }

    /// The character at the position, if any.
    pub fn peek(&self) -> (r: Option<char>)
        ensures
            r == (if self.pos < self.chars@.len() {
                Some(self.chars@[self.pos as int])
            } else {
                None::<char>
            }),
    {
        if self.pos < self.chars.len() {
            Some(self.chars[self.pos])
        } else {
            None
        }
    }

    /// The character at the position, if any, moving past it.
    pub fn bump(&mut self) -> (r: Option<char>)
        ensures
            final(self).chars@ == old(self).chars@,
            r == (if old(self).pos < old(self).chars@.len() {
                Some(old(self).chars@[old(self).pos as int])
            } else {
                None::<char>
            }),
            final(self).pos == (if old(self).pos < old(self).chars@.len() {
                old(self).pos + 1
            } else {
                old(self).pos as int
            }),
    {
        if self.pos < self.chars.len() {
            let ch = self.chars[self.pos];
            self.pos += 1;
            Some(ch)
        } else {
            None
        }
    }

    /// Moves past whitespace.
    pub fn ws(&mut self)
        requires
            old(self).wf(),
        ensures
            final(self).chars@ == old(self).chars@,
            final(self).pos == ws_end(old(self).chars@, old(self).pos as int),
            final(self).wf(),
    {
        let ghost s = self.chars@;
        let ghost p0 = self.pos as int;
        loop
            invariant
                self.chars@ == s,
                s == old(self).chars@,
                p0 == old(self).pos,
                self.wf(),
                p0 <= self.pos,
                ws_end(s, p0) == ws_end(s, self.pos as int),
            decreases s.len() - self.pos,
        {
            match self.peek() {
                Some(c) => {
                    if is_json_ws_exec(c) {
                        self.bump();
                    } else {
                        assert(ws_end(s, self.pos as int) == self.pos);
                        return;
                    }
                },
                None => {
                    assert(ws_end(s, self.pos as int) == self.pos);
                    return;
                },
            }
        }
    }

    /// Moves past the character `ch`, or fails naming it.
    pub fn expect(&mut self, ch: char) -> (r: Result<(), String>)
        requires
            old(self).wf(),
        ensures
            final(self).chars@ == old(self).chars@,
            final(self).wf(),
            r is Ok == (old(self).pos < old(self).chars@.len() && old(self).chars@[old(self).pos as int] == ch),
            final(self).pos == (if old(self).pos < old(self).chars@.len() {
                old(self).pos + 1
            } else {
                old(self).pos as int
            }),
            r matches Err(e) ==> e@ == "expected "@ + seq![ch],
    {
        if self.bump() == Some(ch) {
            Ok(())
        } else {
            let mut msg = chars_of("expected ");
            msg.push(ch);
            Err(string_of(&msg))
        }
    }

    /// Reads the keyword `lit`, giving `value` for it.
    pub fn literal(&mut self, lit: &str, value: Json) -> (r: Result<Json, String>)
        requires
            old(self).wf(),
        ensures
            final(self).chars@ == old(self).chars@,
            final(self).wf(),
            r matches Ok(j) ==> j == value && literal_at(old(self).chars@, old(self).pos as int, lit@)
                == Ok::<int, Seq<char>>(final(self).pos as int),
            r matches Err(e) ==> literal_at(old(self).chars@, old(self).pos as int, lit@) == Err::<
                int,
                Seq<char>,
            >(e@),
    {
        let ghost s = self.chars@;
        let ghost p0 = self.pos as int;
        let cs = chars_of(lit);
        let mut i: usize = 0;
        while i < cs.len()
            invariant
                self.chars@ == s,
                s == old(self).chars@,
                self.wf(),
                cs@ == lit@,
                p0 == old(self).pos,
                i <= cs@.len(),
                self.pos == p0 + i,
                s.subrange(p0, p0 + i) == cs@.take(i as int),
            decreases cs@.len() - i,
        {
            let got = self.bump();
            if got != Some(cs[i]) {
                proof {
                    let ii = i as int;
                    if p0 + cs@.len() <= s.len() {
                        assert(got == Some(s[p0 + ii]));
                        assert(s.subrange(p0, p0 + cs@.len())[ii] == s[p0 + ii]);
                        assert(s.subrange(p0, p0 + cs@.len())[ii] != cs@[ii]);
                    }
                }
                let mut msg = chars_of("expected ");
                push_chars(&mut msg, &cs);
                return Err(string_of(&msg));
            }
            i += 1;
            assert(s.subrange(p0, p0 + i) =~= cs@.take(i as int));
        }
        assert(cs@.take(i as int) =~= cs@);
        Ok(value)
    }

    /// Reads a string literal, undoing its escapes.
    pub fn string(&mut self) -> (r: Result<String, String>)
        requires
            old(self).wf(),
        ensures
            final(self).chars@ == old(self).chars@,
            final(self).wf(),
            r matches Ok(t) ==> string_lit(old(self).chars@, old(self).pos as int) == Ok::<
                (Seq<char>, int),
                Seq<char>,
            >((t@, final(self).pos as int)),
            r matches Err(e) ==> string_lit(old(self).chars@, old(self).pos as int) == Err::<
                (Seq<char>, int),
                Seq<char>,
            >(e@),
    {
        let ghost s = self.chars@;
        let ghost p0 = self.pos as int;
        self.expect('"')?;
        let mut out: Vec<char> = Vec::new();
        loop
            invariant
                self.chars@ == s,
                s == old(self).chars@,
                self.wf(),
                p0 < self.pos,
                p0 == old(self).pos,
                string_lit(s, p0) == string_body(s, self.pos as int, out@),
            decreases s.len() - self.pos,
        {
            let p = self.pos;
            let ghost acc = out@;
            match self.bump() {
                None => {
                    return Err(string_of(&chars_of("unterminated string")));
                },
                Some(ch) => {
                    if ch == '"' {
                        return Ok(string_of(&out));
                    } else if ch == '\\' {
                        match self.bump() {
                            None => {
                                return Err(string_of(&chars_of("unterminated escape")));
                            },
                            Some(e) => {
                                if e == '"' || e == '\\' || e == '/' {
                                    out.push(e);
                                } else if e == 'b' {
                                    out.push('\u{8}');
                                } else if e == 'f' {
                                    out.push('\u{c}');
                                } else if e == 'n' {
                                    out.push('\n');
                                } else if e == 'r' {
                                    out.push('\r');
                                } else if e == 't' {
                                    out.push('\t');
                                } else if e == 'u' {
                                    let code = self.unicode_escape(Ghost(acc))?;
                                    if let Some(c) = core::char::from_u32(code) {
                                        out.push(c);
                                    }
                                } else {
                                    let mut msg = chars_of("invalid escape ");
                                    msg.push(e);
                                    assert(msg@ =~= "invalid escape "@ + seq![e]);
                                    return Err(string_of(&msg));
                                }
                            },
                        }
                    } else {
                        out.push(ch);
                    }
                },
            }
        }
    }

    /// Reads the four hexadecimal digits of a `\u` escape.
    fn unicode_escape(&mut self, Ghost(acc): Ghost<Seq<char>>) -> (r: Result<u32, String>)
        requires
            old(self).wf(),
            old(self).pos >= 2,
            old(self).chars@[old(self).pos - 2] == '\\',
            old(self).chars@[old(self).pos - 1] == 'u',
        ensures
            final(self).chars@ == old(self).chars@,
            final(self).wf(),
            r matches Ok(code) ==> hex4(old(self).chars@, old(self).pos as int) == Some(code as int)
                && final(self).pos == old(self).pos + 4,
            r matches Err(e) ==> hex4(old(self).chars@, old(self).pos as int) is None
                && string_body(old(self).chars@, old(self).pos - 2, acc) == Err::<(Seq<char>, int), Seq<char>>(e@),
    {
        let ghost s = self.chars@;
        let ghost p = self.pos as int;
        let mut code: u32 = 0;
        let mut k: usize = 0;
        while k < 4
            invariant
                self.chars@ == s,
                s == old(self).chars@,
                p == old(self).pos,
                p >= 2,
                s[p - 2] == '\\',
                s[p - 1] == 'u',
                self.wf(),
                k <= 4,
                self.pos == p + k,
                forall|m: int| 0 <= m < k ==> hex_value(#[trigger] s[p + m]) is Some,
                code as int == (if k == 0 {
                    0
                } else if k == 1 {
                    hex_value(s[p])->0
                } else if k == 2 {
                    hex_value(s[p])->0 * 16 + hex_value(s[p + 1])->0
                } else if k == 3 {
                    (hex_value(s[p])->0 * 16 + hex_value(s[p + 1])->0) * 16 + hex_value(s[p + 2])->0
                } else {
                    ((hex_value(s[p])->0 * 16 + hex_value(s[p + 1])->0) * 16 + hex_value(
                        s[p + 2],
                    )->0) * 16 + hex_value(s[p + 3])->0
                }),
                code < (if k == 0 {
                    1u32
                } else if k == 1 {
                    16u32
                } else if k == 2 {
                    256u32
                } else if k == 3 {
                    4096u32
                } else {
                    65536u32
                }),
            decreases 4 - k,
        {
            match self.bump() {
                None => {
                    assert(hex4(s, p) is None);
                    assert(string_body(s, p - 2, acc) == Err::<(Seq<char>, int), Seq<char>>("invalid unicode escape"@));
                    return Err(string_of(&chars_of("invalid unicode escape")));
                },
                Some(c) => {
                    match hex_value_exec(c) {
                        Some(d) => {
                            code = code * 16 + d;
                        },
                        None => {
                            assert(hex_value(s[p + k]) is None);
                            assert(hex4(s, p) is None);
                            assert(string_body(s, p - 2, acc) == Err::<(Seq<char>, int), Seq<char>>("invalid unicode escape"@));
                            return Err(string_of(&chars_of("invalid unicode escape")));
                        },
                    }
                },
            }
            k += 1;
        }
        Ok(code)
    }

    /// Reads a number token.
    pub fn number(&mut self) -> (r: Result<Json, String>)
        requires
            old(self).wf(),
        ensures
            final(self).chars@ == old(self).chars@,
            final(self).wf(),
            r matches Ok(j) ==> number_at(old(self).chars@, old(self).pos as int) == Ok::<
                (JsonV, int),
                Seq<char>,
            >((j@, final(self).pos as int)),
            r matches Err(e) ==> number_at(old(self).chars@, old(self).pos as int) == Err::<
                (JsonV, int),
                Seq<char>,
            >(e@),
    {
        let ghost s = self.chars@;
        let start = self.pos;
        loop
            invariant
                self.chars@ == s,
                s == old(self).chars@,
                self.wf(),
                start <= self.pos,
                start == old(self).pos,
                number_end(s, start as int) == number_end(s, self.pos as int),
            ensures
                self.chars@ == s,
                self.wf(),
                start <= self.pos,
                number_end(s, start as int) == self.pos,
            decreases s.len() - self.pos,
        {
            match self.peek() {
                Some(c) => {
                    if c == '-' || c == '+' || c == '.' || c == 'e' || c == 'E' || is_digit_exec(c) {
                        self.bump();
                    } else {
                        assert(number_end(s, self.pos as int) == self.pos);
                        break;
                    }
                },
                None => {
                    assert(number_end(s, self.pos as int) == self.pos);
                    break;
                },
            }
        }
        let mut raw: Vec<char> = Vec::new();
        let mut k = start;
        while k < self.pos
            invariant
                self.chars@ == s,
                s == old(self).chars@,
                self.wf(),
                start <= k <= self.pos,
                raw@ == s.subrange(start as int, k as int),
            decreases self.pos - k,
        {
            raw.push(self.chars[k]);
            k += 1;
            assert(raw@ =~= s.subrange(start as int, k as int));
        }
        if is_float_text(&raw) {
            Ok(Json::Number(string_of(&raw)))
        } else {
            let mut msg = chars_of("invalid number ");
            push_chars(&mut msg, &raw);
            Err(string_of(&msg))
        }
    }

    /// Reads one value, after any whitespace.
    pub fn value(&mut self) -> (r: Result<Json, String>)
        requires
            old(self).wf(),
        ensures
            final(self).chars@ == old(self).chars@,
            final(self).wf(),
            r matches Ok(j) ==> value_at(old(self).chars@, old(self).pos as int) == Ok::<
                (JsonV, int),
                Seq<char>,
            >((j@, final(self).pos as int)),
            r matches Err(e) ==> value_at(old(self).chars@, old(self).pos as int) == Err::<
                (JsonV, int),
                Seq<char>,
            >(e@),
        decreases old(self).chars@.len() - old(self).pos, 2int,
    {
        let ghost s = self.chars@;
        let ghost p0 = self.pos as int;
        proof {
            lemma_ws_end(s, p0);
        }
        self.ws();
        match self.peek() {
            Some(c) => {
                if c == 'n' {
                    self.literal("null", Json::Null)
                } else if c == 't' {
                    self.literal("true", Json::Bool)
                } else if c == 'f' {
                    self.literal("false", Json::Bool)
                } else if c == '"' {
                    match self.string() {
                        Ok(t) => Ok(Json::String(t)),
                        Err(e) => Err(e),
                    }
                } else if c == '[' {
                    self.array()
                } else if c == '{' {
                    self.object()
                } else if c == '-' || is_digit_exec(c) {
                    self.number()
                } else {
                    Err(string_of(&chars_of("invalid JSON value")))
                }
            },
            None => Err(string_of(&chars_of("invalid JSON value"))),
        }
    }

    /// Reads an array; the position is at its `[`.
    fn array(&mut self) -> (r: Result<Json, String>)
        requires
            old(self).wf(),
            old(self).pos < old(self).chars@.len(),
            old(self).chars@[old(self).pos as int] == '[',
        ensures
            final(self).chars@ == old(self).chars@,
            final(self).wf(),
            r matches Ok(j) ==> array_items(old(self).chars@, old(self).pos + 1, Seq::empty()) == Ok::<
                (JsonV, int),
                Seq<char>,
            >((j@, final(self).pos as int)),
            r matches Err(e) ==> array_items(old(self).chars@, old(self).pos + 1, Seq::empty())
                == Err::<(JsonV, int), Seq<char>>(e@),
        decreases old(self).chars@.len() - old(self).pos, 1int,
    {
        let ghost s = self.chars@;
        let ghost p0 = self.pos as int;
        let _ = self.expect('[');
        let mut out: Vec<Json> = Vec::new();
        assert(json_views(out@) =~= Seq::<JsonV>::empty());
        loop
            invariant
                self.chars@ == s,
                s == old(self).chars@,
                p0 == old(self).pos,
                self.wf(),
                p0 < self.pos,
                array_items(s, p0 + 1, Seq::empty()) == array_items(s, self.pos as int, json_views(out@)),
            decreases s.len() - self.pos,
        {
            let ghost p = self.pos as int;
            proof {
                lemma_ws_end(s, p);
            }
            self.ws();
            let q = self.pos;
            if self.peek() == Some(']') {
                self.bump();
                proof {
                    lemma_array_view(out);
                }
                return Ok(Json::Array(out));
            }
            proof {
                lemma_value_advances(s, q as int);
            }
            let v = self.value()?;
            let ghost r = self.pos as int;
            proof {
                lemma_ws_end(s, r);
            }
            self.ws();
            let ghost t = self.pos as int;
            let ghost acc = json_views(out@);
            let sep = self.bump();
            proof {
                assert(json_views(out@.push(v)) =~= acc.push(v@));
            }
            if sep == Some(',') {
                out.push(v);
            } else if sep == Some(']') {
                out.push(v);
                proof {
                    lemma_array_view(out);
                }
                return Ok(Json::Array(out));
            } else {
                return Err(string_of(&chars_of("expected ',' or ']'")));
            }
        }
    }

    /// Reads an object; the position is at its `{`.
    fn object(&mut self) -> (r: Result<Json, String>)
        requires
            old(self).wf(),
            old(self).pos < old(self).chars@.len(),
            old(self).chars@[old(self).pos as int] == '{',
        ensures
            final(self).chars@ == old(self).chars@,
            final(self).wf(),
            r matches Ok(j) ==> object_members(old(self).chars@, old(self).pos + 1, Seq::empty())
                == Ok::<(JsonV, int), Seq<char>>((j@, final(self).pos as int)),
            r matches Err(e) ==> object_members(old(self).chars@, old(self).pos + 1, Seq::empty())
                == Err::<(JsonV, int), Seq<char>>(e@),
        decreases old(self).chars@.len() - old(self).pos, 1int,
    {
        let ghost s = self.chars@;
        let ghost p0 = self.pos as int;
        let _ = self.expect('{');
        let mut out: Vec<(String, Json)> = Vec::new();
        assert(member_views(out@) =~= Seq::<(Seq<char>, JsonV)>::empty());
        loop
            invariant
                self.chars@ == s,
                s == old(self).chars@,
                p0 == old(self).pos,
                self.wf(),
                p0 < self.pos,
                distinct_keys(member_views(out@)),
                object_members(s, p0 + 1, Seq::empty()) == object_members(
                    s,
                    self.pos as int,
                    member_views(out@),
                ),
            decreases s.len() - self.pos,
        {
            let ghost p = self.pos as int;
            proof {
                lemma_ws_end(s, p);
            }
            self.ws();
            let q = self.pos;
            if self.peek() == Some('}') {
                self.bump();
                proof {
                    lemma_object_view(out);
                }
                return Ok(Json::Object(out));
            }
            let key = self.string()?;
            let ghost r1 = self.pos as int;
            proof {
                if 0 <= q < s.len() && s[q as int] == '"' {
                    lemma_string_body_advances(s, q + 1, Seq::empty());
                }
                lemma_ws_end(s, r1);
            }
            self.ws();
            let ghost t1 = self.pos as int;
            self.expect(':')?;
            proof {
                lemma_value_advances(s, t1 + 1);
            }
            let v = self.value()?;
            let ghost r2 = self.pos as int;
            proof {
                lemma_ws_end(s, r2);
            }
            self.ws();
            insert_member(&mut out, key, v);
            let sep = self.bump();
            if sep == Some(',') {
            } else if sep == Some('}') {
                proof {
                    lemma_object_view(out);
                }
                return Ok(Json::Object(out));
            } else {
                return Err(string_of(&chars_of("expected ',' or '}'")));
            }
        }
    }
}

/// Sets `key` to `v` among the members: the value of a member with that key
/// is replaced, otherwise the member is added at the end.
pub fn insert_member(m: &mut Vec<(String, Json)>, key: String, v: Json)
    requires
        distinct_keys(member_views(old(m)@)),
    ensures
        distinct_keys(member_views(final(m)@)),
        member_views(final(m)@) == member_insert(member_views(old(m)@), key@, v@),
{
    let ghost mv = member_views(m@);
    let ghost kv = key@;
    let ghost vv = v@;
    let mut i: usize = 0;
    while i < m.len()
        invariant
            i <= m@.len(),
            m@ == old(m)@,
            mv == member_views(m@),
            distinct_keys(mv),
            kv == key@,
            vv == v@,
            forall|j: int| 0 <= j < i ==> (#[trigger] mv[j]).0 != kv,
        decreases m@.len() - i,
    {
        if string_order(&m[i].0, &key) == TextOrder::Equal {
            proof {
                assert(mv[i as int].0 == kv);
                let c = choose|j: int| 0 <= j < mv.len() && (#[trigger] mv[j]).0 == kv;
                if c != i {
                    if c < i {
                        assert(mv[c].0 != kv);
                    } else {
                        assert(mv[i as int].0 != mv[c].0);
                    }
                }
                assert(c == i);
                assert(member_insert(mv, kv, vv) == mv.update(i as int, (kv, vv)));
            }
            m.set(i, (key, v));
            proof {
                assert(member_views(m@) =~= mv.update(i as int, (kv, vv)));
                assert forall|a: int, b: int| 0 <= a < b < member_views(m@).len() implies (#[trigger] member_views(m@)[a]).0 != (#[trigger] member_views(m@)[b]).0 by {
                    assert(mv[a].0 != mv[b].0);
                }
            }
            return;
        }
        i += 1;
    }
    proof {
        assert(!exists|j: int| 0 <= j < mv.len() && (#[trigger] mv[j]).0 == kv);
    }
    m.push((key, v));
    proof {
        assert(member_views(m@) =~= mv.push((kv, vv)));
        assert forall|a: int, b: int| 0 <= a < b < member_views(m@).len() implies (#[trigger] member_views(m@)[a]).0 != (#[trigger] member_views(m@)[b]).0 by {
            if b < mv.len() {
                assert(mv[a].0 != mv[b].0);
            } else {
                assert(mv[a].0 != kv);
            }
        }
    }
}

/// Reads a JSON text: one value, with only whitespace after it.
pub fn parse_json(input: &str) -> (r: Result<Json, String>)
    ensures
        r matches Ok(j) ==> parse_json_text(input@) == Ok::<JsonV, Seq<char>>(j@),
        r matches Err(e) ==> parse_json_text(input@) == Err::<JsonV, Seq<char>>(e@),
{
    let mut p = Parser { chars: chars_of(input), pos: 0 };
    let value = p.value()?;
    p.ws();
    if p.pos != p.chars.len() {
        return Err(string_of(&chars_of("trailing JSON input")));
    }
    Ok(value)
}

/// The index of the first member with key `k`, or the number of members.
pub open spec fn key_index(m: Seq<(Seq<char>, JsonV)>, k: Seq<char>) -> int
    decreases m.len(),
{
    if m.len() == 0 {
        0
    } else if m[0].0 == k {
        0
    } else {
        1 + key_index(m.drop_first(), k)
    }
}

pub proof fn lemma_key_index(m: Seq<(Seq<char>, JsonV)>, k: Seq<char>)
    ensures
        0 <= key_index(m, k) <= m.len(),
        key_index(m, k) < m.len() ==> m[key_index(m, k)].0 == k,
        forall|j: int| 0 <= j < key_index(m, k) ==> (#[trigger] m[j]).0 != k,
    decreases m.len(),
{
    if m.len() > 0 && m[0].0 != k {
        lemma_key_index(m.drop_first(), k);
        assert forall|j: int| 0 <= j < key_index(m, k) implies (#[trigger] m[j]).0 != k by {
            if j > 0 {
                assert(m[j] == m.drop_first()[j - 1]);
            }
        }
    }
}

/// The value of the member with key `k`, if any.
pub open spec fn member_get(m: Seq<(Seq<char>, JsonV)>, k: Seq<char>) -> Option<JsonV> {
    let i = key_index(m, k);
    if i < m.len() {
        Some(m[i].1)
    } else {
        None
    }
}

/// The member `k` of an object; nothing for other values.
pub open spec fn json_get(v: JsonV, k: Seq<char>) -> Option<JsonV> {
    match v {
        JsonV::Object(m) => member_get(m, k),
        _ => None,
    }
}

/// The value reached by following the keys of `path`.
pub open spec fn json_get_path(v: JsonV, path: Seq<Seq<char>>) -> Option<JsonV>
    decreases path.len(),
{
    if path.len() == 0 {
        Some(v)
    } else {
        match json_get(v, path[0]) {
            Some(c) => json_get_path(c, path.drop_first()),
            None => None,
        }
    }
}

/// The text of a string value.
pub open spec fn json_string(v: JsonV) -> Option<Seq<char>> {
    match v {
        JsonV::Str(s) => Some(s),
        _ => None,
    }
}

/// The text of a number value.
pub open spec fn json_number(v: JsonV) -> Option<Seq<char>> {
    match v {
        JsonV::Number(s) => Some(s),
        _ => None,
    }
}

/// The items of an array value.
pub open spec fn json_array(v: JsonV) -> Option<Seq<JsonV>> {
    match v {
        JsonV::Array(a) => Some(a),
        _ => None,
    }
}

/// The texts of the keys of a path.
pub open spec fn path_view(path: Seq<&str>) -> Seq<Seq<char>> {
    path.map_values(|k: &str| k@)
}

impl Json {
    /// The member `key` of an object.
    pub fn get(&self, key: &str) -> (r: Option<&Json>)
        ensures
            r matches Some(j) ==> json_get(self@, key@) == Some(j@),
            r is None ==> json_get(self@, key@) is None,
    {
        match self {
            Json::Object(m) => {
                let ghost mv = member_views(m@);
                proof {
                    lemma_object_view(*m);
                    lemma_key_index(mv, key@);
                }
                let mut i: usize = 0;
                while i < m.len()
                    invariant
                        i <= m@.len(),
                        mv == member_views(m@),
                        self@ == JsonV::Object(mv),
                        forall|j: int| 0 <= j < i ==> (#[trigger] mv[j]).0 != key@,
                    decreases m@.len() - i,
                {
                    if same_text(m[i].0.as_str(), key) {
                        proof {
                            lemma_object_view(*m);
                            lemma_key_index(mv, key@);
                            assert(mv[i as int].0 == key@);
                            if key_index(mv, key@) < i {
                                assert(mv[key_index(mv, key@)].0 == key@);
                            }
                            if key_index(mv, key@) > i {
                                assert(mv[i as int].0 != key@);
                            }
                            assert(key_index(mv, key@) == i);
                            assert(mv[i as int].1 == m@[i as int].1@);
                            assert(self@ == JsonV::Object(mv));
                        }
                        return Some(&m[i].1);
                    }
                    i += 1;
                }
                proof {
                    lemma_object_view(*m);
                    lemma_key_index(mv, key@);
                    if key_index(mv, key@) < mv.len() {
                        assert(mv[key_index(mv, key@)].0 == key@);
                    }
                }
                None
            },
            _ => None,
        }
    }

    /// The value reached by following the keys of `path`.
    pub fn get_path(&self, path: &[&str]) -> (r: Option<&Json>)
        ensures
            r matches Some(j) ==> json_get_path(self@, path_view(path@)) == Some(j@),
            r is None ==> json_get_path(self@, path_view(path@)) is None,
    {
        let ghost pv = path_view(path@);
        let mut cur = self;
        let mut i: usize = 0;
        assert(pv.skip(0) =~= pv);
        while i < path.len()
            invariant
                i <= path@.len(),
                pv == path_view(path@),
                json_get_path(self@, pv) == json_get_path(cur@, pv.skip(i as int)),
            decreases path@.len() - i,
        {
            proof {
                assert(pv.skip(i as int)[0] == path@[i as int]@);
                assert(pv.skip(i as int).drop_first() =~= pv.skip(i + 1));
            }
            match cur.get(path[i]) {
                Some(next) => {
                    cur = next;
                },
                None => {
                    return None;
                },
            }
            i += 1;
        }
        proof {
            assert(pv.skip(i as int).len() == 0);
        }
        Some(cur)
    }

    /// The text of a string value.
    pub fn string(&self) -> (r: Option<&String>)
        ensures
            r matches Some(t) ==> json_string(self@) == Some(t@),
            r is None ==> json_string(self@) is None,
    {
        match self {
            Json::String(t) => Some(t),
            _ => None,
        }
    }

    /// The text of a number value, as it was written.
    pub fn number_text(&self) -> (r: Option<&String>)
        ensures
            r matches Some(t) ==> json_number(self@) == Some(t@),
            r is None ==> json_number(self@) is None,
    {
        match self {
            Json::Number(t) => Some(t),
            _ => None,
        }
    }

    /// The items of an array value.
    pub fn array(&self) -> (r: Option<&Vec<Json>>)
        ensures
            r matches Some(a) ==> json_array(self@) == Some(json_views(a@)),
            r is None ==> json_array(self@) is None,
    {
        match self {
            Json::Array(a) => {
                proof {
                    lemma_array_view(*a);
                }
                Some(a)
            },
            _ => None,
        }
    }
}

/// The texts of the numbers in `v`, in document order.
pub open spec fn numbers_of(v: JsonV) -> Seq<Seq<char>>
    decreases v, 0int,
{
    match v {
        JsonV::Number(n) => seq![n],
        JsonV::Array(items) => numbers_of_items(items, items.len() as int),
        JsonV::Object(m) => numbers_of_members(m, m.len() as int),
        _ => Seq::empty(),
    }
}

/// The texts of the numbers in the first `n` of `items`.
pub open spec fn numbers_of_items(items: Seq<JsonV>, n: int) -> Seq<Seq<char>>
    decreases items, n,
{
    if n <= 0 || n > items.len() {
        Seq::empty()
    } else {
        numbers_of_items(items, n - 1) + numbers_of(items[n - 1])
    }
}

/// The texts of the numbers in the values of the first `n` of `m`.
pub open spec fn numbers_of_members(m: Seq<(Seq<char>, JsonV)>, n: int) -> Seq<Seq<char>>
    decreases m, n,
{
    if n <= 0 || n > m.len() {
        Seq::empty()
    } else {
        proof {
            assert(decreases_to!(m => m[n - 1]));
        }
        numbers_of_members(m, n - 1) + numbers_of(m[n - 1].1)
    }
}

/// The views of a sequence of strings.
pub open spec fn texts_of(v: Seq<String>) -> Seq<Seq<char>> {
    v.map_values(|s: String| s@)
}

/// Appends the text of every number in `j`, in document order.
fn collect_number_texts(j: &Json, out: &mut Vec<String>)
    ensures
        texts_of(final(out)@) == texts_of(old(out)@) + numbers_of(j@),
    decreases j,
{
    match j {
        Json::Number(t) => {
            out.push(t.clone());
            assert(texts_of(out@) =~= texts_of(old(out)@) + numbers_of(j@));
        },
        Json::Array(items) => {
            let ghost start = texts_of(out@);
            let ghost iv = json_views(items@);
            proof {
                lemma_array_view(*items);
                assert(start + numbers_of_items(iv, 0) =~= start);
            }
            let mut i: usize = 0;
            while i < items.len()
                invariant
                    i <= items@.len(),
                    *j == Json::Array(*items),
                    j@ == JsonV::Array(iv),
                    iv == json_views(items@),
                    texts_of(out@) == start + numbers_of_items(iv, i as int),
                decreases items@.len() - i,
            {
                proof {
                    vstd::std_specs::vec::axiom_vec_index_decreases(*items, i as int);
                    assert(decreases_to!(*j => *items));
                    assert(decreases_to!(*j => items[i as int]));
                }
                collect_number_texts(&items[i], out);
                proof {
                    assert(iv[i as int] == items@[i as int]@);
                    assert(numbers_of_items(iv, i + 1) == numbers_of_items(iv, i as int) + numbers_of(iv[i as int]));
                    assert(texts_of(out@) =~= start + numbers_of_items(iv, i + 1));
                }
                i += 1;
            }
        },
        Json::Object(members) => {
            let ghost start = texts_of(out@);
            let ghost mv = member_views(members@);
            proof {
                lemma_object_view(*members);
                assert(start + numbers_of_members(mv, 0) =~= start);
            }
            let mut i: usize = 0;
            while i < members.len()
                invariant
                    i <= members@.len(),
                    *j == Json::Object(*members),
                    j@ == JsonV::Object(mv),
                    mv == member_views(members@),
                    texts_of(out@) == start + numbers_of_members(mv, i as int),
                decreases members@.len() - i,
            {
                proof {
                    vstd::std_specs::vec::axiom_vec_index_decreases(*members, i as int);
                    assert(decreases_to!(*j => *members));
                    assert(decreases_to!(*j => members[i as int]));
                    assert(decreases_to!(*j => members[i as int].1));
                }
                collect_number_texts(&members[i].1, out);
                proof {
                    assert(mv[i as int].1 == members@[i as int].1@);
                    assert(numbers_of_members(mv, i + 1) == numbers_of_members(mv, i as int) + numbers_of(mv[i as int].1));
                    assert(texts_of(out@) =~= start + numbers_of_members(mv, i + 1));
                }
                i += 1;
            }
        },
        _ => {
            assert(texts_of(out@) =~= texts_of(old(out)@) + numbers_of(j@));
        },
    }
}

impl Json {
    /// The texts of all the numbers in this value, in document order.
    pub fn number_texts(&self) -> (r: Vec<String>)
        ensures
            texts_of(r@) == numbers_of(self@),
    {
        let mut out: Vec<String> = Vec::new();
        collect_number_texts(self, &mut out);
        assert(texts_of(Seq::<String>::empty()) =~= Seq::empty());
        assert(Seq::<Seq<char>>::empty() + numbers_of(self@) =~= numbers_of(self@));
        out
    }
}

} // verus!
