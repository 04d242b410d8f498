//! Escaping for JSON string bodies and HTML, the small unescaper used for
//! TOML strings, and prefixes of text taken by UTF-8 byte length.
use vstd::prelude::*;
use crate::text::{chars_of, code_point, push_str, replace_chars, replaced, same_text, string_of};

verus! {

/// The concatenation of `f(c)` over the characters `c` of `s`.
pub open spec fn map_concat(s: Seq<char>, f: spec_fn(char) -> Seq<char>) -> Seq<char>
    decreases s.len(),
{
    if s.len() == 0 {
        Seq::empty()
    } else {
        map_concat(s.drop_last(), f) + f(s.last())
    }
}

pub proof fn lemma_map_concat_step(s: Seq<char>, f: spec_fn(char) -> Seq<char>, i: int)
    requires
        0 <= i < s.len(),
    ensures
        map_concat(s.take(i + 1), f) == map_concat(s.take(i), f) + f(s[i]),
{
    assert(s.take(i + 1).drop_last() =~= s.take(i));
}

pub proof fn lemma_map_concat_append(a: Seq<char>, b: Seq<char>, f: spec_fn(char) -> Seq<char>)
    ensures
        map_concat(a + b, f) == map_concat(a, f) + map_concat(b, f),
    decreases b.len(),
{
    if b.len() == 0 {
        assert(a + b =~= a);
        assert(map_concat(a, f) + Seq::<char>::empty() =~= map_concat(a, f));
    } else {
        assert((a + b).drop_last() =~= a + b.drop_last());
        lemma_map_concat_append(a, b.drop_last(), f);
        assert((a + b).last() == b.last());
        assert(map_concat(a, f) + map_concat(b.drop_last(), f) + f(b.last()) =~= map_concat(a, f)
            + (map_concat(b.drop_last(), f) + f(b.last())));
    }
}

/// The lowercase hexadecimal digit of `n` (`0 <= n < 16`).
pub open spec fn hex_digit(n: int) -> char {
    seq!['0', '1', '2', '3', '4', '5', '6', '7', '8', '9', 'a', 'b', 'c', 'd', 'e', 'f'][n]
}

pub fn hex_digit_exec(n: u32) -> (c: char)
    requires
        n < 16,
    ensures
        c == hex_digit(n as int),
{
    let digits = ['0', '1', '2', '3', '4', '5', '6', '7', '8', '9', 'a', 'b', 'c', 'd', 'e', 'f'];
    let c = digits[n as usize];
    assert(digits@ =~= seq!['0', '1', '2', '3', '4', '5', '6', '7', '8', '9', 'a', 'b', 'c', 'd', 'e', 'f']);
    c
}

/// The control characters (`char::is_control`, general category Cc).
pub open spec fn is_control(c: char) -> bool {
    (c as int) <= 0x1f || (0x7f <= (c as int) && (c as int) <= 0x9f)
}

/// How `json_escape` writes one character.
pub open spec fn json_escape_char(c: char) -> Seq<char> {
    if c == '"' {
        seq!['\\', '"']
    } else if c == '\\' {
        seq!['\\', '\\']
    } else if c == '\n' {
        seq!['\\', 'n']
    } else if c == '\r' {
        seq!['\\', 'r']
    } else if c == '\t' {
        seq!['\\', 't']
    } else if is_control(c) {
        let u = c as int;
        seq![
            '\\',
            'u',
            hex_digit(u / 4096),
            hex_digit((u / 256) % 16),
            hex_digit((u / 16) % 16),
            hex_digit(u % 16),
        ]
    } else {
        seq![c]
    }
}

/// The body of a JSON string literal that denotes `s`.
pub open spec fn json_escaped(s: Seq<char>) -> Seq<char> {
    map_concat(s, |c: char| json_escape_char(c))
}

fn push_json_escaped_char(out: &mut Vec<char>, c: char)
    ensures
        final(out)@ == old(out)@ + json_escape_char(c),
{
    let ghost start = out@;
    if c == '"' {
        out.push('\\');
        out.push('"');
    } else if c == '\\' {
        out.push('\\');
        out.push('\\');
    } else if c == '\n' {
        out.push('\\');
        out.push('n');
    } else if c == '\r' {
        out.push('\\');
        out.push('r');
    } else if c == '\t' {
        out.push('\\');
        out.push('t');
    } else if (c as u32) <= 0x1f || (0x7f <= (c as u32) && (c as u32) <= 0x9f) {
        let u = c as u32;
        out.push('\\');
        out.push('u');
        out.push(hex_digit_exec(u / 4096));
        out.push(hex_digit_exec((u / 256) % 16));
        out.push(hex_digit_exec((u / 16) % 16));
        out.push(hex_digit_exec(u % 16));
    } else {
        out.push(c);
    }
    assert(out@ =~= start + json_escape_char(c));
}

/// Escapes `s` for use inside a JSON string literal.
pub fn json_escape_chars(s: &[char]) -> (r: Vec<char>)
    ensures
        r@ == json_escaped(s@),
{
    let mut out: Vec<char> = Vec::new();
    let mut i: usize = 0;
    assert(s@.take(0) =~= Seq::<char>::empty());
    while i < s.len()
        invariant
            i <= s@.len(),
            out@ == json_escaped(s@.take(i as int)),
        decreases s@.len() - i,
    {
        proof {
            lemma_map_concat_step(s@, |c: char| json_escape_char(c), i as int);
        }
        push_json_escaped_char(&mut out, s[i]);
        i += 1;
    }
    assert(s@.take(i as int) =~= s@);
    out
}

/// Escapes `s` for use inside a JSON string literal: quote, backslash,
/// newline, carriage return and tab get their short escapes, the other
/// control characters a `\u` escape with four lowercase hex digits.
pub fn json_escape(s: &str) -> (r: String)
    ensures
        r@ == json_escaped(s@),
{
    let cs = chars_of(s);
    let out = json_escape_chars(&cs);
    string_of(&out)
}

/// What `unescape_json_string` gives: the escapes `\"`, `\n` and `\\`
/// replaced in that order, each replacement over the whole text.
pub open spec fn unescaped(s: Seq<char>) -> Seq<char> {
    replaced(
        replaced(replaced(s, seq!['\\', '"'], seq!['"']), seq!['\\', 'n'], seq!['\n']),
        seq!['\\', '\\'],
        seq!['\\'],
    )
}

pub fn unescape_json_chars(s: &[char]) -> (r: Vec<char>)
    ensures
        r@ == unescaped(s@),
{
    let p1 = vec!['\\', '"'];
    let r1 = vec!['"'];
    let p2 = vec!['\\', 'n'];
    let r2 = vec!['\n'];
    let p3 = vec!['\\', '\\'];
    let r3 = vec!['\\'];
    assert(p1@ =~= seq!['\\', '"']);
    assert(r1@ =~= seq!['"']);
    assert(p2@ =~= seq!['\\', 'n']);
    assert(r2@ =~= seq!['\n']);
    assert(p3@ =~= seq!['\\', '\\']);
    assert(r3@ =~= seq!['\\']);
    let a = replace_chars(s, &p1, &r1);
    let b = replace_chars(&a, &p2, &r2);
    replace_chars(&b, &p3, &r3)
}

/// Undoes the escapes `\"`, `\n` and `\\`, replacing them one kind at a time.
pub fn unescape_json_string(s: &str) -> (r: String)
    ensures
        r@ == unescaped(s@),
{
    let cs = chars_of(s);
    let out = unescape_json_chars(&cs);
    string_of(&out)
}

/// How `html` writes one character.
pub open spec fn html_char(c: char) -> Seq<char> {
    if c == '&' {
        seq!['&', 'a', 'm', 'p', ';']
    } else if c == '<' {
        seq!['&', 'l', 't', ';']
    } else if c == '>' {
        seq!['&', 'g', 't', ';']
    } else {
        seq![c]
    }
}

/// How `html_attr` writes one character.
pub open spec fn html_attr_char(c: char) -> Seq<char> {
    if c == '"' {
        seq!['&', 'q', 'u', 'o', 't', ';']
    } else {
        html_char(c)
    }
}

/// `s` with `&`, `<` and `>` escaped as entities.
pub open spec fn html_text(s: Seq<char>) -> Seq<char> {
    map_concat(s, |c: char| html_char(c))
}

/// `s` with `&`, `<`, `>` and `"` escaped as entities.
pub open spec fn html_attr_text(s: Seq<char>) -> Seq<char> {
    map_concat(s, |c: char| html_attr_char(c))
}

/// No character of `map_concat(s, f)` breaks `ok` when no piece does.
proof fn lemma_map_concat_all(s: Seq<char>, f: spec_fn(char) -> Seq<char>, ok: spec_fn(char) -> bool)
    requires
        forall|c: char, j: int| 0 <= j < f(c).len() ==> ok(#[trigger] f(c)[j]),
    ensures
        forall|j: int| 0 <= j < map_concat(s, f).len() ==> ok(#[trigger] map_concat(s, f)[j]),
    decreases s.len(),
{
    if s.len() > 0 {
        lemma_map_concat_all(s.drop_last(), f, ok);
        let a = map_concat(s.drop_last(), f);
        let b = f(s.last());
        assert(map_concat(s, f) == a + b);
        assert forall|j: int| 0 <= j < (a + b).len() implies ok(#[trigger] (a + b)[j]) by {
            if j < a.len() {
                assert((a + b)[j] == a[j]);
            } else {
                assert((a + b)[j] == b[j - a.len()]);
            }
        }
    }
}

/// Escaped HTML text holds no `<` or `>`, so it cannot open or close a tag;
/// an escaped attribute value holds no `"` either, so it cannot end the value.
pub proof fn lemma_html_escapes_markup(s: Seq<char>)
    ensures
        forall|j: int| 0 <= j < html_text(s).len() ==> #[trigger] html_text(s)[j] != '<' && html_text(s)[j] != '>',
        forall|j: int| 0 <= j < html_attr_text(s).len() ==> #[trigger] html_attr_text(s)[j] != '<'
            && html_attr_text(s)[j] != '>' && html_attr_text(s)[j] != '"',
{
    let ok = |c: char| c != '<' && c != '>';
    let ok_attr = |c: char| c != '<' && c != '>' && c != '"';
    let f = |c: char| html_char(c);
    let g = |c: char| html_attr_char(c);
    assert forall|c: char, j: int| 0 <= j < f(c).len() implies ok(#[trigger] f(c)[j]) by {}
    assert forall|c: char, j: int| 0 <= j < g(c).len() implies ok_attr(#[trigger] g(c)[j]) by {}
    lemma_map_concat_all(s, f, ok);
    lemma_map_concat_all(s, g, ok_attr);
}

fn push_html_char(out: &mut Vec<char>, c: char, attr: bool)
    ensures
        final(out)@ == old(out)@ + (if attr {
            html_attr_char(c)
        } else {
            html_char(c)
        }),
{
    let ghost start = out@;
    if c == '&' {
        out.push('&');
        out.push('a');
        out.push('m');
        out.push('p');
        out.push(';');
    } else if c == '<' {
        out.push('&');
        out.push('l');
        out.push('t');
        out.push(';');
    } else if c == '>' {
        out.push('&');
        out.push('g');
        out.push('t');
        out.push(';');
    } else if c == '"' && attr {
        out.push('&');
        out.push('q');
        out.push('u');
        out.push('o');
        out.push('t');
        out.push(';');
    } else {
        out.push(c);
    }
    assert(out@ =~= start + (if attr {
        html_attr_char(c)
    } else {
        html_char(c)
    }));
}

/// Appends `s` escaped for HTML text (or, with `attr`, for an attribute value).
pub fn push_html(out: &mut Vec<char>, s: &[char], attr: bool)
    ensures
        final(out)@ == old(out)@ + (if attr {
            html_attr_text(s@)
        } else {
            html_text(s@)
        }),
{
    let ghost start = out@;
    let ghost f = if attr {
        |c: char| html_attr_char(c)
    } else {
        |c: char| html_char(c)
    };
    let mut i: usize = 0;
    assert(s@.take(0) =~= Seq::<char>::empty());
    assert(start + map_concat(Seq::<char>::empty(), f) =~= start);
    while i < s.len()
        invariant
            i <= s@.len(),
            out@ == start + map_concat(s@.take(i as int), f),
            f == (if attr {
                |c: char| html_attr_char(c)
            } else {
                |c: char| html_char(c)
            }),
        decreases s@.len() - i,
    {
        proof {
            lemma_map_concat_step(s@, f, i as int);
        }
        push_html_char(out, s[i], attr);
        i += 1;
        assert(out@ =~= start + map_concat(s@.take(i as int), f));
    }
    assert(s@.take(i as int) =~= s@);
}

/// Escapes `&`, `<` and `>` for HTML text.
pub fn html(s: &str) -> (r: String)
    ensures
        r@ == html_text(s@),
{
    let cs = chars_of(s);
    let mut out: Vec<char> = Vec::new();
    push_html(&mut out, &cs, false);
    assert(out@ =~= html_text(s@));
    string_of(&out)
}

/// Escapes `&`, `<`, `>` and `"` for an HTML attribute value.
pub fn html_attr(s: &str) -> (r: String)
    ensures
        r@ == html_attr_text(s@),
{
    let cs = chars_of(s);
    let mut out: Vec<char> = Vec::new();
    push_html(&mut out, &cs, true);
    assert(out@ =~= html_attr_text(s@));
    string_of(&out)
}

/// The number of bytes UTF-8 takes for `c`.
pub open spec fn utf8_width(c: char) -> int {
    if (c as int) < 0x80 {
        1
    } else if (c as int) < 0x800 {
        2
    } else if (c as int) < 0x10000 {
        3
    } else {
        4
    }
}

/// The number of bytes UTF-8 takes for `s`.
pub open spec fn utf8_size(s: Seq<char>) -> int
    decreases s.len(),
{
    if s.len() == 0 {
        0
    } else {
        utf8_size(s.drop_last()) + utf8_width(s.last())
    }
}

/// `str::get(0..n)`: the prefix of `s` whose UTF-8 encoding is exactly `n`
/// bytes long, if `n` falls on a character boundary within `s`.
pub open spec fn byte_prefix(s: Seq<char>, n: int) -> Option<Seq<char>> {
    if exists|k: int| 0 <= k <= s.len() && #[trigger] utf8_size(s.take(k)) == n {
        Some(s.take(choose|k: int| 0 <= k <= s.len() && #[trigger] utf8_size(s.take(k)) == n))
    } else {
        None
    }
}

proof fn lemma_utf8_size_monotonic(s: Seq<char>, j: int, k: int)
    requires
        0 <= j < k <= s.len(),
    ensures
        utf8_size(s.take(j)) < utf8_size(s.take(k)),
    decreases k - j,
{
    assert(s.take(k).drop_last() =~= s.take(k - 1));
    if j < k - 1 {
        lemma_utf8_size_monotonic(s, j, k - 1);
    }
}

/// The prefix of `s` that is exactly `n` bytes long in UTF-8, if there is one.
pub fn byte_prefix_chars(s: &[char], n: usize) -> (r: Option<Vec<char>>)
    ensures
        r matches Some(p) ==> byte_prefix(s@, n as int) == Some(p@),
        r is None ==> byte_prefix(s@, n as int) is None,
{
    let mut i: usize = 0;
    let mut rem: usize = n;
    assert(s@.take(0) =~= Seq::<char>::empty());
    while i < s.len() && rem > 0
        invariant
            i <= s@.len(),
            rem <= n,
            n - rem == utf8_size(s@.take(i as int)),
        decreases s@.len() - i,
    {
        let c = s[i];
        let u = code_point(c);
        let w: usize = if u < 0x80 {
            1
        } else if u < 0x800 {
            2
        } else if u < 0x10000 {
            3
        } else {
            4
        };
        assert(s@.take(i + 1).drop_last() =~= s@.take(i as int));
        assert(s@.take(i + 1).last() == s@[i as int]);
        assert(utf8_width(c) == w as int);
        assert(utf8_size(s@.take(i + 1)) == utf8_size(s@.take(i as int)) + w);
        if w > rem {
            proof {
                assert forall|k: int| 0 <= k <= s@.len() implies #[trigger] utf8_size(s@.take(k))
                    != n by {
                    if k <= i {
                        if k < i {
                            lemma_utf8_size_monotonic(s@, k, i as int);
                        }
                    } else {
                        if k > i + 1 {
                            lemma_utf8_size_monotonic(s@, i + 1, k);
                        }
                    }
                }
            }
            return None;
        }
        rem -= w;
        i += 1;
    }
    if rem == 0 {
        proof {
            assert(0 <= i <= s@.len() && utf8_size(s@.take(i as int)) == n);
            let k = choose|k: int| 0 <= k <= s@.len() && #[trigger] utf8_size(s@.take(k)) == n;
            if k < i {
                lemma_utf8_size_monotonic(s@, k, i as int);
            } else if i < k {
                lemma_utf8_size_monotonic(s@, i as int, k);
            }
        }
        let mut p: Vec<char> = Vec::new();
        let mut j: usize = 0;
        while j < i
            invariant
                j <= i <= s@.len(),
                p@ == s@.take(j as int),
            decreases i - j,
        {
            p.push(s[j]);
            j += 1;
            assert(p@ =~= s@.take(j as int));
        }
        Some(p)
    } else {
        proof {
            assert forall|k: int| 0 <= k <= s@.len() implies #[trigger] utf8_size(s@.take(k))
                != n by {
                if k < i {
                    lemma_utf8_size_monotonic(s@, k, i as int);
                }
            }
        }
        None
    }
}

/// The first ten bytes of an RFC 3339 timestamp (its date), or the whole
/// text when ten bytes do not end on a character boundary inside it.
pub open spec fn short_date_text(iso: Seq<char>) -> Seq<char> {
    match byte_prefix(iso, 10) {
        Some(p) => p,
        None => iso,
    }
}

/// The date part of an RFC 3339 timestamp.
pub fn short_date(iso: &str) -> (r: String)
    ensures
        r@ == short_date_text(iso@),
{
    let cs = chars_of(iso);
    match byte_prefix_chars(&cs, 10) {
        Some(p) => string_of(&p),
        None => string_of(&cs),
    }
}

/// The status badge shown after an event: nothing for an empty status.
pub open spec fn status_badge_text(status: Seq<char>) -> Seq<char> {
    if status.len() == 0 {
        Seq::empty()
    } else {
        " <span class=\"btc-status\">"@ + html_text(status) + "</span>"@
    }
}

/// The badge that shows an event's status.
pub fn status_badge(status: &str) -> (r: String)
    ensures
        r@ == status_badge_text(status@),
{
    let cs = chars_of(status);
    if cs.len() == 0 {
        return String::new();
    }
    let mut out: Vec<char> = Vec::new();
    push_str(&mut out, " <span class=\"btc-status\">");
    push_html(&mut out, &cs, false);
    push_str(&mut out, "</span>");
    string_of(&out)
}

/// The symbol shown for each kind of event.
pub open spec fn icon_text(kind: Seq<char>) -> Seq<char> {
    if kind == "pull_request"@ {
        "\u{2442}"@
    } else if kind == "review"@ {
        "\u{2713}"@
    } else if kind == "commit"@ {
        "\u{25cf}"@
    } else if kind == "comment"@ {
        "\u{21a9}"@
    } else if kind == "issue"@ {
        "!"@
    } else {
        "\u{2022}"@
    }
}

/// The symbol shown for an event kind.
pub fn icon(kind: &str) -> (r: &'static str)
    ensures
        r@ == icon_text(kind@),
{
    if same_text(kind, "pull_request") {
        "\u{2442}"
    } else if same_text(kind, "review") {
        "\u{2713}"
    } else if same_text(kind, "commit") {
        "\u{25cf}"
    } else if same_text(kind, "comment") {
        "\u{21a9}"
    } else if same_text(kind, "issue") {
        "!"
    } else {
        "\u{2022}"
    }
}

} // verus!
