//! The small TOML subset the site configuration is written in: logical
//! lines (arrays may span lines), quoted strings and string arrays.
use vstd::prelude::*;
use crate::escape::{unescape_json_chars, unescaped};
use crate::text::{chars_of, has_char, push_chars, string_of, trim, trim_chars};

verus! {

/// The characters held by each vector.
pub open spec fn char_views(v: Seq<Vec<char>>) -> Seq<Seq<char>> {
    v.map_values(|x: Vec<char>| x@)
}

/// The characters held by each string.
pub open spec fn string_views(v: Seq<String>) -> Seq<Seq<char>> {
    v.map_values(|x: String| x@)
}

pub proof fn lemma_char_views_push(v: Seq<Vec<char>>, x: Vec<char>)
    ensures
        char_views(v.push(x)) == char_views(v).push(x@),
{
    assert(char_views(v.push(x)) =~= char_views(v).push(x@));
}

pub proof fn lemma_string_views_push(v: Seq<String>, x: String)
    ensures
        string_views(v.push(x)) == string_views(v).push(x@),
{
    assert(string_views(v.push(x)) =~= string_views(v).push(x@));
}

/// Strings holding the given character vectors.
pub fn strings_of(v: &Vec<Vec<char>>) -> (r: Vec<String>)
    ensures
        string_views(r@) == char_views(v@),
{
    let mut out: Vec<String> = Vec::new();
    let mut i: usize = 0;
    while i < v.len()
        invariant
            i <= v@.len(),
            string_views(out@) == char_views(v@.take(i as int)),
        decreases v@.len() - i,
    {
        let s = string_of(&v[i]);
        proof {
            lemma_string_views_push(out@, s);
            assert(v@.take(i + 1) =~= v@.take(i as int).push(v@[i as int]));
            lemma_char_views_push(v@.take(i as int), v@[i as int]);
        }
        out.push(s);
        i += 1;
    }
    assert(v@.take(i as int) =~= v@);
    out
}

/// The index of the first line feed in `s`, or its length when there is none.
pub open spec fn line_end(s: Seq<char>) -> int
    decreases s.len(),
{
    if s.len() == 0 {
        0
    } else if s[0] == '\n' {
        0
    } else {
        1 + line_end(s.drop_first())
    }
}

pub proof fn lemma_line_end(s: Seq<char>)
    ensures
        0 <= line_end(s) <= s.len(),
        line_end(s) < s.len() ==> s[line_end(s)] == '\n',
        forall|k: int| 0 <= k < line_end(s) ==> s[k] != '\n',
    decreases s.len(),
{
    if s.len() > 0 && s[0] != '\n' {
        lemma_line_end(s.drop_first());
        assert forall|k: int| 0 <= k < line_end(s) implies s[k] != '\n' by {
            if k > 0 {
                assert(s[k] == s.drop_first()[k - 1]);
            }
        }
    }
}

/// A line without the carriage return that ended it.
pub open spec fn strip_cr(l: Seq<char>) -> Seq<char> {
    if l.len() > 0 && l.last() == '\r' {
        l.drop_last()
    } else {
        l
    }
}

/// The lines of `s`, as `str::lines` gives them: split at line feeds, a
/// carriage return before a line feed dropped, no final empty line.
pub open spec fn text_lines(s: Seq<char>) -> Seq<Seq<char>>
    decreases s.len(),
{
    if s.len() == 0 {
        Seq::empty()
    } else {
        let e = line_end(s);
        if 0 <= e < s.len() {
            seq![strip_cr(s.take(e))] + text_lines(s.skip(e + 1))
        } else {
            seq![s]
        }
    }
}

/// Splits `s` into lines as `str::lines` does.
pub fn split_lines(s: &[char]) -> (r: Vec<Vec<char>>)
    ensures
        char_views(r@) == text_lines(s@),
{
    let mut out: Vec<Vec<char>> = Vec::new();
    let mut p: usize = 0;
    assert(s@.skip(0) =~= s@);
    assert(char_views(out@) + text_lines(s@) =~= text_lines(s@));
    while p < s.len()
        invariant
            p <= s@.len(),
            char_views(out@) + text_lines(s@.skip(p as int)) == text_lines(s@),
        decreases s@.len() - p,
    {
        let ghost rest = s@.skip(p as int);
        proof {
            lemma_line_end(rest);
        }
        let mut line: Vec<char> = Vec::new();
        let mut e: usize = p;
        while e < s.len() && s[e] != '\n'
            invariant
                p <= e <= s@.len(),
                line@ == s@.subrange(p as int, e as int),
                forall|k: int| p <= k < e ==> s@[k] != '\n',
            decreases s@.len() - e,
        {
            line.push(s[e]);
            e += 1;
            assert(line@ =~= s@.subrange(p as int, e as int));
        }
        proof {
            assert forall|k: int| 0 <= k < (e - p) implies rest[k] != '\n' by {
                assert(rest[k] == s@[p + k]);
            }
            if e < s@.len() {
                assert(rest[e - p] == '\n');
            }
            if line_end(rest) < e - p {
                assert(rest[line_end(rest)] == '\n');
                assert(rest[line_end(rest)] == s@[p + line_end(rest)]);
            }
            if line_end(rest) > e - p {
                assert(rest[e - p] != '\n');
            }
            assert(line_end(rest) == e - p);
            assert(rest.take(e - p) =~= line@);
        }
        if e < s.len() {
            if line.len() > 0 && line[line.len() - 1] == '\r' {
                line.pop();
            }
            assert(line@ =~= strip_cr(rest.take(e - p)));
            proof {
                lemma_char_views_push(out@, line);
                assert(rest.skip(e - p + 1) =~= s@.skip(e + 1));
                assert(char_views(out@.push(line)) + text_lines(s@.skip(e + 1)) =~= char_views(out@)
                    + text_lines(rest));
            }
            out.push(line);
            p = e + 1;
        } else {
            proof {
                lemma_char_views_push(out@, line);
                assert(rest =~= line@);
                assert(s@.skip(e as int) =~= Seq::<char>::empty());
                assert(char_views(out@.push(line)) + text_lines(s@.skip(e as int)) =~= char_views(
                    out@,
                ) + text_lines(rest));
            }
            out.push(line);
            p = e;
        }
    }
    assert(s@.skip(p as int) =~= Seq::<char>::empty());
    assert(char_views(out@) + Seq::<Seq<char>>::empty() =~= char_views(out@));
    out
}

/// The state of the scan that joins multi-line arrays into logical lines.
pub struct LineScan {
    pub lines: Seq<Seq<char>>,
    pub current: Seq<char>,
    pub in_array: bool,
}

/// One physical line taken into the scan: blank lines outside an array
/// are skipped; a line with `=` and `[` but no `]` opens an array, which
/// gathers the following lines (joined by a space) up to one holding `]`.
pub open spec fn line_scan_step(st: LineScan, raw_line: Seq<char>) -> LineScan {
    let line = trim(raw_line);
    if line.len() == 0 && !st.in_array {
        st
    } else if st.in_array {
        let cur = st.current + seq![' '] + line;
        if line.contains(']') {
            LineScan { lines: st.lines.push(trim(cur)), current: Seq::empty(), in_array: false }
        } else {
            LineScan { lines: st.lines, current: cur, in_array: true }
        }
    } else if line.contains('=') && line.contains('[') && !line.contains(']') {
        LineScan { lines: st.lines, current: st.current + line, in_array: true }
    } else {
        LineScan { lines: st.lines.push(line), current: st.current, in_array: st.in_array }
    }
}

/// The scan after the given physical lines.
pub open spec fn line_scan(ls: Seq<Seq<char>>) -> LineScan
    decreases ls.len(),
{
    if ls.len() == 0 {
        LineScan { lines: Seq::empty(), current: Seq::empty(), in_array: false }
    } else {
        line_scan_step(line_scan(ls.drop_last()), ls.last())
    }
}

/// The logical lines of a configuration text: an array left open at the
/// end is kept as it was gathered.
pub open spec fn logical_lines(raw: Seq<char>) -> Seq<Seq<char>> {
    let st = line_scan(text_lines(raw));
    if st.current.len() > 0 {
        st.lines.push(st.current)
    } else {
        st.lines
    }
}

/// The logical lines of `raw` (see `logical_lines`).
pub fn logical_lines_chars(raw: &[char]) -> (r: Vec<Vec<char>>)
    ensures
        char_views(r@) == logical_lines(raw@),
{
    let phys = split_lines(raw);
    let mut lines: Vec<Vec<char>> = Vec::new();
    let mut current: Vec<char> = Vec::new();
    let mut in_array = false;
    let mut i: usize = 0;
    assert(phys@.take(0) =~= Seq::<Vec<char>>::empty());
    assert(char_views(phys@.take(0)) =~= Seq::<Seq<char>>::empty());
    while i < phys.len()
        invariant
            i <= phys@.len(),
            char_views(phys@) == text_lines(raw@),
            line_scan(char_views(phys@.take(i as int))) == (LineScan {
                lines: char_views(lines@),
                current: current@,
                in_array,
            }),
        decreases phys@.len() - i,
    {
        let ghost before = LineScan { lines: char_views(lines@), current: current@, in_array };
        proof {
            assert(phys@.take(i + 1).drop_last() =~= phys@.take(i as int));
            assert(char_views(phys@.take(i + 1)) =~= char_views(phys@.take(i as int)).push(
                phys@[i as int]@,
            ));
            assert(char_views(phys@.take(i + 1)).drop_last() =~= char_views(phys@.take(i as int)));
        }
        let line = trim_chars(&phys[i]);
        let has_close = has_char(&line, ']');
        if line.len() == 0 && !in_array {
        } else if in_array {
            current.push(' ');
            push_chars(&mut current, &line);
            assert(current@ =~= before.current + seq![' '] + line@);
            if has_close {
                let joined = trim_chars(&current);
                proof {
                    lemma_char_views_push(lines@, joined);
                }
                lines.push(joined);
                current = Vec::new();
                in_array = false;
            }
        } else if has_char(&line, '=') && has_char(&line, '[') && !has_close {
            push_chars(&mut current, &line);
            in_array = true;
            assert(current@ =~= before.current + line@);
        } else {
            proof {
                lemma_char_views_push(lines@, line);
            }
            lines.push(line);
        }
        assert(line_scan_step(before, phys@[i as int]@) == (LineScan {
            lines: char_views(lines@),
            current: current@,
            in_array,
        }));
        i += 1;
    }
    assert(phys@.take(i as int) =~= phys@);
    if current.len() > 0 {
        proof {
            lemma_char_views_push(lines@, current);
        }
        lines.push(current);
    }
    lines
}

/// Joins the lines of a configuration text into logical lines: an array
/// value written over several lines becomes one line.
pub fn logical_toml_lines(raw: &str) -> (r: Vec<String>)
    ensures
        string_views(r@) == logical_lines(raw@),
{
    let cs = chars_of(raw);
    let ls = logical_lines_chars(&cs);
    strings_of(&ls)
}

/// What `parse_toml_string` gives: the unescaped body of a quoted value,
/// or the error that names the value.
pub open spec fn toml_string(value: Seq<char>) -> Result<Seq<char>, Seq<char>> {
    let v = trim(value);
    if v.len() >= 2 && v[0] == '"' && v.last() == '"' {
        Ok(unescaped(v.subrange(1, v.len() - 1)))
    } else {
        Err("expected TOML string, got "@ + v)
    }
}

pub fn parse_toml_string_chars(value: &[char]) -> (r: Result<Vec<char>, String>)
    ensures
        r matches Ok(s) ==> toml_string(value@) == Ok::<Seq<char>, Seq<char>>(s@),
        r matches Err(e) ==> toml_string(value@) == Err::<Seq<char>, Seq<char>>(e@),
{
    let v = trim_chars(value);
    if v.len() >= 2 && v[0] == '"' && v[v.len() - 1] == '"' {
        let mut body: Vec<char> = Vec::new();
        let mut k: usize = 1;
        while k < v.len() - 1
            invariant
                1 <= k <= v@.len() - 1,
                v@.len() >= 2,
                body@ == v@.subrange(1, k as int),
            decreases v@.len() - k,
        {
            body.push(v[k]);
            k += 1;
            assert(body@ =~= v@.subrange(1, k as int));
        }
        Ok(unescape_json_chars(&body))
    } else {
        let mut msg = chars_of("expected TOML string, got ");
        push_chars(&mut msg, &v);
        Err(string_of(&msg))
    }
}

/// Reads a quoted TOML string value, undoing the escapes `\"`, `\n` and `\\`.
pub fn parse_toml_string(value: &str) -> (r: Result<String, String>)
    ensures
        r matches Ok(s) ==> toml_string(value@) == Ok::<Seq<char>, Seq<char>>(s@),
        r matches Err(e) ==> toml_string(value@) == Err::<Seq<char>, Seq<char>>(e@),
{
    let cs = chars_of(value);
    match parse_toml_string_chars(&cs) {
        Ok(s) => Ok(string_of(&s)),
        Err(e) => Err(e),
    }
}

/// The state of the scan over the inside of a string array.
pub struct ArrayScan {
    pub items: Seq<Seq<char>>,
    pub cur: Seq<char>,
    pub in_str: bool,
    pub escape: bool,
}

/// One character taken into the array scan: quotes open and close items,
/// a backslash inside an item takes the next character as it is, and
/// everything outside quotes is skipped.
pub open spec fn array_scan_step(st: ArrayScan, ch: char) -> ArrayScan {
    if st.escape {
        ArrayScan { cur: st.cur.push(ch), escape: false, ..st }
    } else if ch == '\\' && st.in_str {
        ArrayScan { escape: true, ..st }
    } else if ch == '"' {
        if st.in_str {
            ArrayScan { items: st.items.push(st.cur), cur: Seq::empty(), in_str: false, ..st }
        } else {
            ArrayScan { in_str: true, ..st }
        }
    } else if st.in_str {
        ArrayScan { cur: st.cur.push(ch), ..st }
    } else {
        st
    }
}

/// The array scan after the given characters.
pub open spec fn array_scan(s: Seq<char>) -> ArrayScan
    decreases s.len(),
{
    if s.len() == 0 {
        ArrayScan { items: Seq::empty(), cur: Seq::empty(), in_str: false, escape: false }
    } else {
        array_scan_step(array_scan(s.drop_last()), s.last())
    }
}

/// What `parse_toml_array` gives: the closed quoted items between the
/// brackets, or the error that names the value.
pub open spec fn toml_array(value: Seq<char>) -> Result<Seq<Seq<char>>, Seq<char>> {
    let v = trim(value);
    if v == seq!['[', ']'] {
        Ok(Seq::empty())
    } else if !(v.len() > 0 && v[0] == '[' && v.last() == ']') {
        Err("expected TOML string array, got "@ + v)
    } else {
        Ok(array_scan(v.subrange(1, v.len() - 1)).items)
    }
}

pub fn parse_toml_array_chars(value: &[char]) -> (r: Result<Vec<Vec<char>>, String>)
    ensures
        r matches Ok(items) ==> toml_array(value@) == Ok::<Seq<Seq<char>>, Seq<char>>(
            char_views(items@),
        ),
        r matches Err(e) ==> toml_array(value@) == Err::<Seq<Seq<char>>, Seq<char>>(e@),
{
    let v = trim_chars(value);
    if v.len() == 2 && v[0] == '[' && v[1] == ']' {
        assert(v@ =~= seq!['[', ']']);
        let empty: Vec<Vec<char>> = Vec::new();
        assert(char_views(empty@) =~= Seq::<Seq<char>>::empty());
        return Ok(empty);
    }
    assert(v@ != seq!['[', ']']);
    if !(v.len() > 0 && v[0] == '[' && v[v.len() - 1] == ']') {
        let mut msg = chars_of("expected TOML string array, got ");
        push_chars(&mut msg, &v);
        return Err(string_of(&msg));
    }
    let ghost inner = v@.subrange(1, v@.len() - 1);
    let mut items: Vec<Vec<char>> = Vec::new();
    let mut cur: Vec<char> = Vec::new();
    let mut in_str = false;
    let mut escape = false;
    let mut k: usize = 1;
    assert(inner.take(0) =~= Seq::<char>::empty());
    assert(char_views(items@) =~= Seq::<Seq<char>>::empty());
    while k < v.len() - 1
        invariant
            1 <= k <= v@.len() - 1,
            v@.len() >= 2,
            inner == v@.subrange(1, v@.len() - 1),
            array_scan(inner.take(k - 1)) == (ArrayScan {
                items: char_views(items@),
                cur: cur@,
                in_str,
                escape,
            }),
        decreases v@.len() - k,
    {
        let ghost before = ArrayScan { items: char_views(items@), cur: cur@, in_str, escape };
        let ch = v[k];
        proof {
            assert(inner.take(k as int).drop_last() =~= inner.take(k - 1));
            assert(inner.take(k as int).last() == ch);
        }
        if escape {
            cur.push(ch);
            escape = false;
        } else if ch == '\\' && in_str {
            escape = true;
        } else if ch == '"' {
            if in_str {
                proof {
                    lemma_char_views_push(items@, cur);
                }
                items.push(cur);
                cur = Vec::new();
            }
            in_str = !in_str;
        } else if in_str {
            cur.push(ch);
        }
        assert(array_scan_step(before, ch) == (ArrayScan {
            items: char_views(items@),
            cur: cur@,
            in_str,
            escape,
        }));
        k += 1;
    }
    assert(inner.take(k - 1) =~= inner);
    Ok(items)
}

/// Reads a TOML array of strings written on one logical line.
pub fn parse_toml_array(value: &str) -> (r: Result<Vec<String>, String>)
    ensures
        r matches Ok(items) ==> toml_array(value@) == Ok::<Seq<Seq<char>>, Seq<char>>(
            string_views(items@),
        ),
        r matches Err(e) ==> toml_array(value@) == Err::<Seq<Seq<char>>, Seq<char>>(e@),
{
    let cs = chars_of(value);
    match parse_toml_array_chars(&cs) {
        Ok(items) => Ok(strings_of(&items)),
        Err(e) => Err(e),
    }
}

} // verus!
