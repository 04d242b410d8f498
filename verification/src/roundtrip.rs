//! Reading back what the feed writes: the JSON reader recovers every string
//! the escaper wrote, and a feed read from its own JSON text is the feed.
use vstd::prelude::*;
use crate::escape::{
    hex_digit, is_control, json_escape_char, json_escaped, lemma_map_concat_append, map_concat,
};
use crate::feed::{
    event_from_item, event_json, event_keys, event_values, events_json, events_member, feed_from_json,
    feed_json, feed_keys,
    indent, member_json, members_text, read_feed, text_field, EventV, FeedV,
};
use crate::json::{
    array_items, char_of_code, hex4, hex_value, is_json_ws, json_get, key_index, lemma_key_index,
    member_get, member_insert, object_members, parse_json_text, string_body, string_lit, value_at,
    ws_end, JsonV,
};

verus! {

/// How escaping a text that starts with `c` begins.
pub proof fn lemma_escaped_cons(c: char, t: Seq<char>)
    ensures
        json_escaped(seq![c] + t) == json_escape_char(c) + json_escaped(t),
{
    let f = |x: char| json_escape_char(x);
    lemma_map_concat_append(seq![c], t, f);
    assert(seq![c].drop_last() =~= Seq::<char>::empty());
    assert(seq![c].last() == c);
    assert(map_concat(Seq::<char>::empty(), f) =~= Seq::<char>::empty());
    assert(map_concat(seq![c], f) == map_concat(seq![c].drop_last(), f) + f(c));
    assert(map_concat(seq![c], f) =~= f(c));
}

/// Reading a hexadecimal digit written by the escaper gives its value.
pub proof fn lemma_hex_digit_value(n: int)
    requires
        0 <= n < 16,
    ensures
        hex_value(hex_digit(n)) == Some(n),
{
    let d = seq!['0', '1', '2', '3', '4', '5', '6', '7', '8', '9', 'a', 'b', 'c', 'd', 'e', 'f'];
    assert(hex_digit(n) == d[n]);
    if n == 0 {
    } else if n == 1 {
    } else if n == 2 {
    } else if n == 3 {
    } else if n == 4 {
    } else if n == 5 {
    } else if n == 6 {
    } else if n == 7 {
    } else if n == 8 {
    } else if n == 9 {
    } else if n == 10 {
    } else if n == 11 {
    } else if n == 12 {
    } else if n == 13 {
    } else if n == 14 {
    } else {
    }
}

/// The reader undoes the escaping of one character.
proof fn lemma_string_body_char(s: Seq<char>, p: int, c: char, acc: Seq<char>)
    requires
        0 <= p,
        p + json_escape_char(c).len() < s.len(),
        s.subrange(p, p + json_escape_char(c).len()) == json_escape_char(c),
    ensures
        string_body(s, p, acc) == string_body(s, p + json_escape_char(c).len(), acc.push(c)),
{
    let e = json_escape_char(c);
    assert forall|i: int| 0 <= i < e.len() implies s[p + i] == e[i] by {
        assert(s.subrange(p, p + e.len())[i] == s[p + i]);
    }
    if c == '"' || c == '\\' || c == '\n' || c == '\r' || c == '\t' {
        assert(s[p] == '\\');
    } else if is_control(c) {
        let u = c as int;
        assert(s[p] == '\\');
        assert(s[p + 1] == 'u');
        assert(u < 256);
        lemma_hex_digit_value(u / 4096);
        lemma_hex_digit_value((u / 256) % 16);
        lemma_hex_digit_value((u / 16) % 16);
        lemma_hex_digit_value(u % 16);
        assert(u / 4096 == 0);
        assert((u / 256) % 16 == 0);
        assert(hex4(s, p + 2) == Some(u));
        assert(char_of_code(u) == Some(c));
    } else {
        assert(e =~= seq![c]);
        assert(s[p + 0] == e[0]);
        assert(s[p] == c);
    }
}

/// The reader gives back the text the escaper wrote, up to the closing quote.
pub proof fn lemma_string_body_escaped(s: Seq<char>, p: int, t: Seq<char>, acc: Seq<char>)
    requires
        0 <= p,
        p + json_escaped(t).len() + 1 <= s.len(),
        s.subrange(p, p + json_escaped(t).len() + 1) == json_escaped(t) + seq!['"'],
    ensures
        string_body(s, p, acc) == Ok::<(Seq<char>, int), Seq<char>>(
            (acc + t, p + json_escaped(t).len() + 1),
        ),
    decreases t.len(),
{
    let n = json_escaped(t).len();
    if t.len() == 0 {
        assert(json_escaped(t) =~= Seq::<char>::empty());
        assert(s.subrange(p, p + 1)[0] == s[p]);
        assert(acc + t =~= acc);
    } else {
        let c = t[0];
        let t2 = t.drop_first();
        assert(t =~= seq![c] + t2);
        lemma_escaped_cons(c, t2);
        let e = json_escape_char(c);
        let whole = json_escaped(t) + seq!['"'];
        assert(whole =~= e + (json_escaped(t2) + seq!['"']));
        assert(s.subrange(p, p + e.len()) =~= whole.subrange(0, e.len() as int));
        assert(whole.subrange(0, e.len() as int) =~= e);
        assert(s.subrange(p + e.len(), p + e.len() + json_escaped(t2).len() + 1) =~= whole.subrange(
            e.len() as int,
            whole.len() as int,
        ));
        assert(whole.subrange(e.len() as int, whole.len() as int) =~= json_escaped(t2) + seq!['"']);
        lemma_string_body_char(s, p, c, acc);
        lemma_string_body_escaped(s, p + e.len(), t2, acc.push(c));
        assert(acc.push(c) + t2 =~= acc + t);
    }
}

/// Whitespace of length `k` at `p`, followed by something else, is skipped.
pub proof fn lemma_ws_skip(s: Seq<char>, p: int, k: int)
    requires
        0 <= p,
        0 <= k,
        p + k <= s.len(),
        forall|i: int| p <= i < p + k ==> is_json_ws(#[trigger] s[i]),
        p + k < s.len() ==> !is_json_ws(s[p + k]),
    ensures
        ws_end(s, p) == p + k,
    decreases k,
{
    if k > 0 {
        assert(is_json_ws(s[p]));
        lemma_ws_skip(s, p + 1, k - 1);
    }
}

/// A character the escaper writes as it is.
pub open spec fn plain_char(c: char) -> bool {
    c != '"' && c != '\\' && !is_control(c)
}

/// Escaping a text of plain characters leaves it as it is.
pub proof fn lemma_plain_escaped(t: Seq<char>)
    requires
        forall|i: int| 0 <= i < t.len() ==> plain_char(#[trigger] t[i]),
    ensures
        json_escaped(t) == t,
    decreases t.len(),
{
    if t.len() > 0 {
        let t2 = t.drop_first();
        assert(t =~= seq![t[0]] + t2);
        lemma_escaped_cons(t[0], t2);
        assert forall|i: int| 0 <= i < t2.len() implies plain_char(#[trigger] t2[i]) by {
            assert(t2[i] == t[i + 1]);
        }
        lemma_plain_escaped(t2);
        assert(json_escape_char(t[0]) =~= seq![t[0]]);
    } else {
        assert(json_escaped(t) =~= t);
    }
}

/// A piece of a text that is known at a position.
pub proof fn lemma_subrange_of(s: Seq<char>, p: int, m: Seq<char>, a: int, b: int)
    requires
        0 <= p,
        p + m.len() <= s.len(),
        s.subrange(p, p + m.len()) == m,
        0 <= a <= b <= m.len(),
    ensures
        s.subrange(p + a, p + b) == m.subrange(a, b),
{
    assert forall|i: int| 0 <= i < b - a implies s.subrange(p + a, p + b)[i] == m.subrange(a, b)[i] by {
        assert(s.subrange(p, p + m.len())[a + i] == s[p + a + i]);
    }
    assert(s.subrange(p + a, p + b) =~= m.subrange(a, b));
}

/// How reading an object goes on after a member that ends at `r`.
pub open spec fn members_after(s: Seq<char>, r: int, acc: Seq<(Seq<char>, JsonV)>) -> Result<
    (JsonV, int),
    Seq<char>,
> {
    let t2 = ws_end(s, r);
    if t2 < s.len() && s[t2] == ',' {
        object_members(s, t2 + 1, acc)
    } else if t2 < s.len() && s[t2] == '}' {
        Ok((JsonV::Object(acc), t2 + 1))
    } else {
        Err("expected ',' or '}'"@)
    }
}

/// The keys the feed writes are made of plain characters.
pub open spec fn plain_text(t: Seq<char>) -> bool {
    forall|i: int| 0 <= i < t.len() ==> plain_char(#[trigger] t[i])
}

/// Reading one string member as the feed writes it.
pub proof fn lemma_member_read(
    s: Seq<char>,
    p: int,
    n: nat,
    key: Seq<char>,
    val: Seq<char>,
    acc: Seq<(Seq<char>, JsonV)>,
)
    requires
        0 <= p,
        p + member_json(n, key, val).len() <= s.len(),
        s.subrange(p, p + member_json(n, key, val).len()) == member_json(n, key, val),
        plain_text(key),
    ensures
        object_members(s, p, acc) == members_after(
            s,
            p + member_json(n, key, val).len(),
            member_insert(acc, key, JsonV::Str(val)),
        ),
{
    let m = member_json(n, key, val);
    let esc = json_escaped(val);
    let il: int = n as int + 1;
    let kl: int = key.len() as int;
    lemma_plain_escaped(key);
    assert(m =~= indent(n) + seq!['"'] + key + seq!['"', ':', ' ', '"'] + esc + seq!['"']);
    assert(indent(n).len() == il);
    assert forall|i: int| 0 <= i < m.len() implies s[p + i] == m[i] by {
        assert(s.subrange(p, p + m.len())[i] == s[p + i]);
    }
    // the indentation
    assert forall|i: int| p <= i < p + il implies is_json_ws(#[trigger] s[i]) by {
        assert(s[p + (i - p)] == m[i - p]);
        assert(m[i - p] == indent(n)[i - p]);
    }
    assert(s[p + il] == m[il as int]);
    assert(m[il as int] == '"');
    lemma_ws_skip(s, p, il as int);
    let q = p + il;
    // the key
    lemma_subrange_of(s, p, m, il + 1, il + 1 + kl + 1);
    assert(m.subrange(il + 1, il + 1 + kl + 1) =~= key + seq!['"']);
    lemma_string_body_escaped(s, q + 1, key, Seq::empty());
    assert(Seq::<char>::empty() + key =~= key);
    assert(string_lit(s, q) == Ok::<(Seq<char>, int), Seq<char>>((key, q + kl + 2)));
    let r1 = q + kl + 2;
    assert(s[r1] == m[il + kl + 2]);
    assert(m[il + kl + 2] == ':');
    lemma_ws_skip(s, r1, 0);
    // the value
    assert(s[r1 + 1] == m[il + kl + 3]);
    assert(m[il + kl + 3] == ' ');
    assert(s[r1 + 2] == m[il + kl + 4]);
    assert(m[il + kl + 4] == '"');
    assert forall|i: int| r1 + 1 <= i < r1 + 2 implies is_json_ws(#[trigger] s[i]) by {
        assert(i == r1 + 1);
    }
    lemma_ws_skip(s, r1 + 1, 1);
    lemma_subrange_of(s, p, m, il + kl + 5, m.len() as int);
    assert(m.subrange(il + kl + 5, m.len() as int) =~= esc + seq!['"']);
    lemma_string_body_escaped(s, r1 + 3, val, Seq::empty());
    assert(Seq::<char>::empty() + val =~= val);
    let r2 = r1 + 3 + esc.len() + 1;
    assert(r2 == p + m.len());
    assert(value_at(s, r1 + 1) == Ok::<(JsonV, int), Seq<char>>((JsonV::Str(val), r2)));
}

/// The members a list of string members reads as.
pub open spec fn string_members(ks: Seq<Seq<char>>, vs: Seq<Seq<char>>) -> Seq<(Seq<char>, JsonV)> {
    Seq::new(ks.len(), |i: int| (ks[i], JsonV::Str(vs[i])))
}

/// Reading the rest of an object made of string members, up to its `}`.
pub proof fn lemma_members_read(
    s: Seq<char>,
    p: int,
    n: nat,
    m: nat,
    ks: Seq<Seq<char>>,
    vs: Seq<Seq<char>>,
    acc: Seq<(Seq<char>, JsonV)>,
)
    requires
        ks.len() == vs.len(),
        ks.len() >= 1,
        forall|i: int| 0 <= i < ks.len() ==> plain_text(#[trigger] ks[i]),
        forall|i: int, j: int| 0 <= i < j < ks.len() ==> #[trigger] ks[i] != #[trigger] ks[j],
        forall|i: int, j: int| 0 <= i < ks.len() && 0 <= j < acc.len() ==> #[trigger] acc[j].0 != #[trigger] ks[i],
        0 <= p,
        p + members_text(n, ks, vs).len() + m + 2 <= s.len(),
        s.subrange(p, p + members_text(n, ks, vs).len()) == members_text(n, ks, vs),
        s.subrange(
            p + members_text(n, ks, vs).len(),
            p + members_text(n, ks, vs).len() + m + 2,
        ) == indent(m) + seq!['}'],
    ensures
        object_members(s, p, acc) == Ok::<(JsonV, int), Seq<char>>(
            (JsonV::Object(acc + string_members(ks, vs)), p + members_text(n, ks, vs).len() + m + 2),
        ),
    decreases ks.len(),
{
    let t = members_text(n, ks, vs);
    let mj = member_json(n, ks[0], vs[0]);
    let r = p + mj.len();
    lemma_subrange_of(s, p, t, 0, mj.len() as int);
    if ks.len() == 1 {
        assert(t == mj);
    } else {
        assert(t == mj + seq![','] + members_text(n, ks.drop_first(), vs.drop_first()));
        assert(t.subrange(0, mj.len() as int) =~= mj);
    }
    assert(s.subrange(p, p + mj.len()) == mj);
    lemma_member_read(s, p, n, ks[0], vs[0], acc);
    let kv = (ks[0], JsonV::Str(vs[0]));
    assert(!exists|j: int| 0 <= j < acc.len() && (#[trigger] acc[j]).0 == ks[0]);
    let acc2 = acc.push(kv);
    assert(member_insert(acc, ks[0], JsonV::Str(vs[0])) == acc2);
    let tail = indent(m) + seq!['}'];
    assert forall|i: int| 0 <= i < tail.len() implies s[p + t.len() + i] == tail[i] by {
        assert(s.subrange(p + t.len(), p + t.len() + m + 2)[i] == s[p + t.len() + i]);
    }
    if ks.len() == 1 {
        assert forall|i: int| r <= i < r + m + 1 implies is_json_ws(#[trigger] s[i]) by {
            assert(s[p + t.len() + (i - r)] == tail[i - r]);
        }
        assert(s[r + m + 1] == tail[m as int + 1]);
        lemma_ws_skip(s, r, m as int + 1);
        assert(acc2 =~= acc + string_members(ks, vs));
    } else {
        let ks2 = ks.drop_first();
        let vs2 = vs.drop_first();
        let t2 = members_text(n, ks2, vs2);
        assert(t[mj.len() as int] == ',');
        assert(s.subrange(p, p + t.len())[mj.len() as int] == s[r]);
        lemma_ws_skip(s, r, 0);
        lemma_subrange_of(s, p, t, mj.len() as int + 1, t.len() as int);
        assert(t.subrange(mj.len() as int + 1, t.len() as int) =~= t2);
        assert forall|i: int, j: int| 0 <= i < ks2.len() && 0 <= j < acc2.len() implies #[trigger] acc2[j].0 != #[trigger] ks2[i] by {
            assert(ks2[i] == ks[i + 1]);
            if j == acc.len() {
                assert(ks[0] != ks[i + 1]);
            }
        }
        assert forall|i: int, j: int| 0 <= i < j < ks2.len() implies #[trigger] ks2[i] != #[trigger] ks2[j] by {
            assert(ks2[i] == ks[i + 1]);
            assert(ks2[j] == ks[j + 1]);
        }
        assert forall|i: int| 0 <= i < ks2.len() implies plain_text(#[trigger] ks2[i]) by {
            assert(ks2[i] == ks[i + 1]);
        }
        lemma_members_read(s, r + 1, n, m, ks2, vs2, acc2);
        assert(acc2 + string_members(ks2, vs2) =~= acc + string_members(ks, vs));
    }
}

/// The value an event is read back as.
pub open spec fn event_value(e: EventV) -> JsonV {
    JsonV::Object(string_members(event_keys(), event_values(e)))
}

/// The keys of an event are plain and distinct.
pub proof fn lemma_event_keys()
    ensures
        event_keys().len() == 10,
        forall|i: int| 0 <= i < 10 ==> plain_text(#[trigger] event_keys()[i]),
        forall|i: int, j: int| 0 <= i < j < 10 ==> #[trigger] event_keys()[i] != #[trigger] event_keys()[j],
{
    reveal_strlit("id");
    reveal_strlit("event_type");
    reveal_strlit("repo");
    reveal_strlit("title");
    reveal_strlit("url");
    reveal_strlit("occurred_at");
    reveal_strlit("thread_id");
    reveal_strlit("thread_title");
    reveal_strlit("thread_url");
    reveal_strlit("status");
    let k = event_keys();
    assert forall|i: int| 0 <= i < 10 implies plain_text(#[trigger] k[i]) by {
        let t = k[i];
        assert forall|j: int| 0 <= j < t.len() implies plain_char(#[trigger] t[j]) by {
            assert('a' <= t[j] && t[j] <= 'z' || t[j] == '_');
        }
    }
    assert forall|i: int, j: int| 0 <= i < j < 10 implies #[trigger] k[i] != #[trigger] k[j] by {
        if k[i].len() == k[j].len() {
            if i == 0 {
            } else if k[i][0] == k[j][0] && k[i].len() > 4 {
                assert(k[i][4] != k[j][4] || k[i][5] != k[j][5] || k[i][7] != k[j][7]);
            } else {
                assert(k[i][0] != k[j][0] || k[i][1] != k[j][1]);
            }
        }
    }
}

/// In members with distinct keys, a key is found where it stands.
pub proof fn lemma_key_index_distinct(m: Seq<(Seq<char>, JsonV)>, i: int)
    requires
        0 <= i < m.len(),
        forall|a: int, b: int| 0 <= a < b < m.len() ==> (#[trigger] m[a]).0 != (#[trigger] m[b]).0,
    ensures
        key_index(m, m[i].0) == i,
        member_get(m, m[i].0) == Some(m[i].1),
{
    lemma_key_index(m, m[i].0);
    let k = key_index(m, m[i].0);
    if k < i {
        assert(m[k].0 == m[i].0);
    }
}

/// Reading back an event gives the event.
pub proof fn lemma_event_from_value(e: EventV)
    ensures
        event_from_item(event_value(e)) == e,
{
    lemma_event_keys();
    let m = string_members(event_keys(), event_values(e));
    let v = event_values(e);
    assert forall|a: int, b: int| 0 <= a < b < m.len() implies (#[trigger] m[a]).0 != (#[trigger] m[b]).0 by {
        assert(m[a].0 == event_keys()[a]);
        assert(m[b].0 == event_keys()[b]);
    }
    assert forall|i: int| 0 <= i < 10 implies text_field(event_value(e), #[trigger] event_keys()[i]) == v[i] by {
        lemma_key_index_distinct(m, i);
        assert(m[i].0 == event_keys()[i]);
        assert(m[i].1 == JsonV::Str(v[i]));
    }
    let k = event_keys();
    assert(text_field(event_value(e), k[0]) == v[0]);
    assert(text_field(event_value(e), k[1]) == v[1]);
    assert(text_field(event_value(e), k[2]) == v[2]);
    assert(text_field(event_value(e), k[3]) == v[3]);
    assert(text_field(event_value(e), k[4]) == v[4]);
    assert(text_field(event_value(e), k[5]) == v[5]);
    assert(text_field(event_value(e), k[6]) == v[6]);
    assert(text_field(event_value(e), k[7]) == v[7]);
    assert(text_field(event_value(e), k[8]) == v[8]);
    assert(text_field(event_value(e), k[9]) == v[9]);
}

/// Reading an event's object, from just after its `{`.
pub proof fn lemma_event_read(s: Seq<char>, p: int, e: EventV)
    requires
        0 <= p,
        p + event_json(e).len() <= s.len(),
        s.subrange(p, p + event_json(e).len()) == event_json(e),
    ensures
        forall|i: int| p <= i < p + 4 ==> is_json_ws(#[trigger] s[i]),
        s[p + 4] == '{',
        object_members(s, p + 5, Seq::empty()) == Ok::<(JsonV, int), Seq<char>>(
            (event_value(e), p + event_json(e).len()),
        ),
{
    lemma_event_keys();
    let ej = event_json(e);
    let t = members_text(6, event_keys(), event_values(e));
    assert(ej =~= seq![' ', ' ', ' ', ' ', '{'] + t + (indent(4) + seq!['}']));
    assert forall|i: int| 0 <= i < ej.len() implies s[p + i] == ej[i] by {
        assert(s.subrange(p, p + ej.len())[i] == s[p + i]);
    }
    assert forall|i: int| p <= i < p + 4 implies is_json_ws(#[trigger] s[i]) by {
        assert(s[p + (i - p)] == ej[i - p]);
    }
    assert(s[p + 4] == ej[4]);
    lemma_subrange_of(s, p, ej, 5, 5 + t.len() as int);
    assert(ej.subrange(5, 5 + t.len() as int) =~= t);
    lemma_subrange_of(s, p, ej, 5 + t.len() as int, ej.len() as int);
    assert(ej.subrange(5 + t.len() as int, ej.len() as int) =~= indent(4) + seq!['}']);
    assert(event_values(e).len() == 10);
    lemma_members_read(s, p + 5, 6, 4, event_keys(), event_values(e), Seq::empty());
    assert(Seq::<(Seq<char>, JsonV)>::empty() + string_members(event_keys(), event_values(e))
        =~= string_members(event_keys(), event_values(e)));
}

/// The values the events are read back as.
pub open spec fn event_values_of(es: Seq<EventV>) -> Seq<JsonV> {
    Seq::new(es.len(), |i: int| event_value(es[i]))
}

/// Reading one item of the events array: a line break, then the event.
proof fn lemma_item_read(s: Seq<char>, p: int, e: EventV, tail: Seq<char>)
    requires
        0 <= p,
        p + 1 + event_json(e).len() + tail.len() <= s.len(),
        s.subrange(p, p + 1 + event_json(e).len() + tail.len()) == seq!['\n'] + event_json(e) + tail,
    ensures
        ws_end(s, p) == p + 5,
        s[p + 5] == '{',
        value_at(s, p + 5) == Ok::<(JsonV, int), Seq<char>>((event_value(e), p + 1 + event_json(e).len())),
        s.subrange(p + 1 + event_json(e).len(), p + 1 + event_json(e).len() + tail.len()) == tail,
{
    let ej = event_json(e);
    let whole = seq!['\n'] + ej + tail;
    lemma_subrange_of(s, p, whole, 1, 1 + ej.len() as int);
    assert(whole.subrange(1, 1 + ej.len() as int) =~= ej);
    lemma_subrange_of(s, p, whole, 1 + ej.len() as int, whole.len() as int);
    assert(whole.subrange(1 + ej.len() as int, whole.len() as int) =~= tail);
    lemma_event_read(s, p + 1, e);
    assert(s.subrange(p, p + whole.len())[0] == s[p]);
    assert(s[p] == '\n');
    assert forall|i: int| p <= i < p + 5 implies is_json_ws(#[trigger] s[i]) by {
        if i > p {
            assert(is_json_ws(s[i]));
        }
    }
    lemma_ws_skip(s, p, 5);
    lemma_ws_skip(s, p + 5, 0);
}

/// Reading the rest of the events array, from just after its `[`.
#[verifier::rlimit(30)]
pub proof fn lemma_events_read(s: Seq<char>, p: int, es: Seq<EventV>, acc: Seq<JsonV>)
    requires
        0 <= p,
        p + 1 + events_json(es).len() + 4 <= s.len(),
        s.subrange(p, p + 1 + events_json(es).len() + 4) == seq!['\n'] + events_json(es) + indent(2)
            + seq![']'],
    ensures
        array_items(s, p, acc) == Ok::<(JsonV, int), Seq<char>>(
            (JsonV::Array(acc + event_values_of(es)), p + 1 + events_json(es).len() + 4),
        ),
    decreases es.len(),
{
    let ej_all = events_json(es);
    let whole = seq!['\n'] + ej_all + indent(2) + seq![']'];
    if es.len() == 0 {
        assert(ej_all =~= Seq::<char>::empty());
        assert forall|i: int| 0 <= i < whole.len() implies s[p + i] == whole[i] by {
            assert(s.subrange(p, p + whole.len())[i] == s[p + i]);
        }
        assert forall|i: int| p <= i < p + 4 implies is_json_ws(#[trigger] s[i]) by {
            assert(s[p + (i - p)] == whole[i - p]);
        }
        assert(s[p + 4] == whole[4]);
        lemma_ws_skip(s, p, 4);
        assert(acc + event_values_of(es) =~= acc);
    } else {
        let e = es[0];
        let ej = event_json(e);
        let rest = es.drop_first();
        let ev = event_value(e);
        let r = p + 1 + ej.len();
        if es.len() == 1 {
            assert(ej_all == ej);
            let tail = indent(2) + seq![']'];
            assert(whole =~= seq!['\n'] + ej + tail);
            lemma_item_read(s, p, e, tail);
            assert forall|i: int| r <= i < r + 3 implies is_json_ws(#[trigger] s[i]) by {
                assert(s.subrange(r, r + tail.len())[i - r] == s[i]);
            }
            assert(s.subrange(r, r + tail.len())[3] == s[r + 3]);
            lemma_ws_skip(s, r, 3);
            assert(acc.push(ev) =~= acc + event_values_of(es));
        } else {
            assert(ej_all == ej + seq![',', '\n'] + events_json(rest));
            let rj = events_json(rest);
            let tail2 = seq!['\n'] + rj + indent(2) + seq![']'];
            let tail = seq![','] + tail2;
            assert(whole =~= seq!['\n'] + ej + tail);
            lemma_item_read(s, p, e, tail);
            assert(s.subrange(r, r + tail.len())[0] == s[r]);
            lemma_ws_skip(s, r, 0);
            lemma_subrange_of(s, r, tail, 1, tail.len() as int);
            assert(tail.subrange(1, tail.len() as int) =~= tail2);
            lemma_events_read(s, r + 1, rest, acc.push(ev));
            assert(acc.push(ev) + event_values_of(rest) =~= acc + event_values_of(es));
        }
    }
}

/// Reading string members as the feed writes them, up to what follows them.
pub proof fn lemma_members_prefix(
    s: Seq<char>,
    p: int,
    n: nat,
    ks: Seq<Seq<char>>,
    vs: Seq<Seq<char>>,
    acc: Seq<(Seq<char>, JsonV)>,
)
    requires
        ks.len() == vs.len(),
        ks.len() >= 1,
        forall|i: int| 0 <= i < ks.len() ==> plain_text(#[trigger] ks[i]),
        forall|i: int, j: int| 0 <= i < j < ks.len() ==> #[trigger] ks[i] != #[trigger] ks[j],
        forall|i: int, j: int| 0 <= i < ks.len() && 0 <= j < acc.len() ==> #[trigger] acc[j].0 != #[trigger] ks[i],
        0 <= p,
        p + members_text(n, ks, vs).len() <= s.len(),
        s.subrange(p, p + members_text(n, ks, vs).len()) == members_text(n, ks, vs),
    ensures
        object_members(s, p, acc) == members_after(
            s,
            p + members_text(n, ks, vs).len(),
            acc + string_members(ks, vs),
        ),
    decreases ks.len(),
{
    let t = members_text(n, ks, vs);
    let mj = member_json(n, ks[0], vs[0]);
    let r = p + mj.len();
    lemma_subrange_of(s, p, t, 0, mj.len() as int);
    if ks.len() == 1 {
        assert(t == mj);
    } else {
        assert(t == mj + seq![','] + members_text(n, ks.drop_first(), vs.drop_first()));
        assert(t.subrange(0, mj.len() as int) =~= mj);
    }
    lemma_member_read(s, p, n, ks[0], vs[0], acc);
    let kv = (ks[0], JsonV::Str(vs[0]));
    assert(!exists|j: int| 0 <= j < acc.len() && (#[trigger] acc[j]).0 == ks[0]);
    let acc2 = acc.push(kv);
    assert(member_insert(acc, ks[0], JsonV::Str(vs[0])) == acc2);
    if ks.len() == 1 {
        assert(acc2 =~= acc + string_members(ks, vs));
    } else {
        let ks2 = ks.drop_first();
        let vs2 = vs.drop_first();
        let t2 = members_text(n, ks2, vs2);
        assert(t[mj.len() as int] == ',');
        assert(s.subrange(p, p + t.len())[mj.len() as int] == s[r]);
        lemma_ws_skip(s, r, 0);
        lemma_subrange_of(s, p, t, mj.len() as int + 1, t.len() as int);
        assert(t.subrange(mj.len() as int + 1, t.len() as int) =~= t2);
        assert forall|i: int, j: int| 0 <= i < ks2.len() && 0 <= j < acc2.len() implies #[trigger] acc2[j].0 != #[trigger] ks2[i] by {
            assert(ks2[i] == ks[i + 1]);
            if j == acc.len() {
                assert(ks[0] != ks[i + 1]);
            }
        }
        assert forall|i: int, j: int| 0 <= i < j < ks2.len() implies #[trigger] ks2[i] != #[trigger] ks2[j] by {
            assert(ks2[i] == ks[i + 1]);
            assert(ks2[j] == ks[j + 1]);
        }
        assert forall|i: int| 0 <= i < ks2.len() implies plain_text(#[trigger] ks2[i]) by {
            assert(ks2[i] == ks[i + 1]);
        }
        lemma_members_prefix(s, r + 1, n, ks2, vs2, acc2);
        assert(acc2 + string_members(ks2, vs2) =~= acc + string_members(ks, vs));
    }
}

/// Reading the feed's `events` member and the `}` that closes the feed.
proof fn lemma_events_member_read(s: Seq<char>, p: int, es: Seq<EventV>, acc: Seq<(Seq<char>, JsonV)>)
    requires
        0 <= p,
        p + events_member(es).len() + 2 <= s.len(),
        s.subrange(p, p + events_member(es).len() + 2) == events_member(es) + seq!['\n', '}'],
        forall|j: int| 0 <= j < acc.len() ==> (#[trigger] acc[j]).0 != "events"@,
    ensures
        object_members(s, p, acc) == Ok::<(JsonV, int), Seq<char>>(
            (
                JsonV::Object(acc.push(("events"@, JsonV::Array(event_values_of(es))))),
                p + events_member(es).len() + 2,
            ),
        ),
{
    reveal_strlit("events");
    let em = events_member(es);
    let arr = seq!['\n'] + events_json(es) + indent(2) + seq![']'];
    let head = indent(2) + seq!['"'] + "events"@ + seq!['"', ':', ' ', '['];
    let whole = em + seq!['\n', '}'];
    assert(head.len() == 14);
    assert(em =~= head + arr);
    assert(whole =~= head + (arr + seq!['\n', '}']));
    lemma_subrange_of(s, p, whole, 0, 14);
    assert(whole.subrange(0, 14) =~= head);
    assert forall|i: int| 0 <= i < 14 implies s[p + i] == head[i] by {
        assert(s.subrange(p, p + 14)[i] == s[p + i]);
    }
    assert forall|i: int| p <= i < p + 3 implies is_json_ws(#[trigger] s[i]) by {
        assert(s[p + (i - p)] == head[i - p]);
    }
    assert(s[p + 3] == head[3]);
    lemma_ws_skip(s, p, 3);
    let c = p + 3;
    assert forall|i: int| 0 <= i < "events"@.len() implies plain_char(#[trigger] "events"@[i]) by {}
    lemma_plain_escaped("events"@);
    lemma_subrange_of(s, p, whole, 4, 11);
    assert(whole.subrange(4, 11) =~= "events"@ + seq!['"']);
    lemma_string_body_escaped(s, c + 1, "events"@, Seq::empty());
    assert(Seq::<char>::empty() + "events"@ =~= "events"@);
    assert(string_lit(s, c) == Ok::<(Seq<char>, int), Seq<char>>(("events"@, c + 8)));
    assert(s[c + 8] == head[11]);
    lemma_ws_skip(s, c + 8, 0);
    assert(s[c + 9] == head[12]);
    assert(s[c + 10] == head[13]);
    assert forall|i: int| c + 9 <= i < c + 10 implies is_json_ws(#[trigger] s[i]) by {}
    lemma_ws_skip(s, c + 9, 1);
    lemma_subrange_of(s, p, whole, 14, 14 + arr.len() as int);
    assert(whole.subrange(14, 14 + arr.len() as int) =~= arr);
    lemma_events_read(s, c + 11, es, Seq::empty());
    assert(Seq::<JsonV>::empty() + event_values_of(es) =~= event_values_of(es));
    let end = p + em.len();
    assert(value_at(s, c + 9) == Ok::<(JsonV, int), Seq<char>>(
        (JsonV::Array(event_values_of(es)), end),
    ));
    assert(!exists|j: int| 0 <= j < acc.len() && (#[trigger] acc[j]).0 == "events"@);
    assert(member_insert(acc, "events"@, JsonV::Array(event_values_of(es))) == acc.push(
        ("events"@, JsonV::Array(event_values_of(es))),
    ));
    lemma_subrange_of(s, p, whole, em.len() as int, whole.len() as int);
    assert(whole.subrange(em.len() as int, whole.len() as int) =~= seq!['\n', '}']);
    assert(s.subrange(end, end + 2)[0] == s[end]);
    assert(s.subrange(end, end + 2)[1] == s[end + 1]);
    assert forall|i: int| end <= i < end + 1 implies is_json_ws(#[trigger] s[i]) by {}
    lemma_ws_skip(s, end, 1);
}

/// The feed's text reads as one object: its two string members, then the
/// events array.
#[verifier::rlimit(40)]
proof fn lemma_feed_value(f: FeedV)
    ensures
        parse_json_text(feed_json(f)) == Ok::<JsonV, Seq<char>>(
            JsonV::Object(
                string_members(feed_keys(), seq![f.generated_at, f.username]).push(
                    ("events"@, JsonV::Array(event_values_of(f.events))),
                ),
            ),
        ),
{
    reveal_strlit("generated_at");
    reveal_strlit("username");
    reveal_strlit("events");
    let s = feed_json(f);
    let ks = feed_keys();
    let vs = seq![f.generated_at, f.username];
    let t = members_text(2, ks, vs);
    let em = events_member(f.events);
    let tail = em + seq!['\n', '}', '\n'];
    assert(s =~= seq!['{'] + t + (seq![','] + tail));
    assert(s[0] == '{');
    lemma_ws_skip(s, 0, 0);
    assert(s.subrange(1, 1 + t.len() as int) =~= t);
    assert forall|i: int| 0 <= i < ks.len() implies plain_text(#[trigger] ks[i]) by {
        let k = ks[i];
        assert forall|j: int| 0 <= j < k.len() implies plain_char(#[trigger] k[j]) by {
            assert('a' <= k[j] && k[j] <= 'z' || k[j] == '_');
        }
    }
    assert(ks[0] != ks[1]);
    lemma_members_prefix(s, 1, 2, ks, vs, Seq::empty());
    let acc = Seq::<(Seq<char>, JsonV)>::empty() + string_members(ks, vs);
    let r: int = 1 + t.len() as int;
    assert(s[r] == ',');
    lemma_ws_skip(s, r, 0);
    assert(s.subrange(r + 1, r + 1 + em.len() as int + 2) =~= em + seq!['\n', '}']);
    assert forall|j: int| 0 <= j < acc.len() implies (#[trigger] acc[j]).0 != "events"@ by {
        assert(acc[j].0 == ks[j]);
    }
    lemma_events_member_read(s, r + 1, f.events, acc);
    let end: int = r + 1 + em.len() as int + 2;
    assert(s.len() == end + 1);
    assert(s[end] == '\n');
    assert forall|i: int| end <= i < end + 1 implies is_json_ws(#[trigger] s[i]) by {}
    lemma_ws_skip(s, end, 1);
    assert(acc =~= string_members(ks, vs));
}

/// Any text written with `json_escape` between double quotes is a JSON
/// document, and reading it gives back the text.
pub proof fn lemma_json_string_round_trip(t: Seq<char>)
    ensures
        parse_json_text(seq!['"'] + json_escaped(t) + seq!['"']) == Ok::<JsonV, Seq<char>>(JsonV::Str(t)),
{
    let e = json_escaped(t);
    let s = seq!['"'] + e + seq!['"'];
    assert(s[0] == '"');
    lemma_ws_skip(s, 0, 0);
    assert(s.subrange(1, 1 + e.len() as int + 1) =~= e + seq!['"']);
    lemma_string_body_escaped(s, 1, t, Seq::empty());
    assert(Seq::<char>::empty() + t =~= t);
    lemma_ws_skip(s, s.len() as int, 0);
}

/// The JSON text of a feed reads as an object whose `generated_at` and
/// `username` members are the feed's strings and whose `events` member is an
/// array with one item per event.
pub proof fn lemma_feed_json_shape(f: FeedV)
    ensures
        parse_json_text(feed_json(f)) is Ok,
        json_get(parse_json_text(feed_json(f))->Ok_0, "generated_at"@) == Some(JsonV::Str(f.generated_at)),
        json_get(parse_json_text(feed_json(f))->Ok_0, "username"@) == Some(JsonV::Str(f.username)),
        json_get(parse_json_text(feed_json(f))->Ok_0, "events"@) == Some(JsonV::Array(event_values_of(f.events))),
        event_values_of(f.events).len() == f.events.len(),
{
    reveal_strlit("generated_at");
    reveal_strlit("username");
    reveal_strlit("events");
    lemma_feed_value(f);
    let ks = feed_keys();
    let vs = seq![f.generated_at, f.username];
    let evs = event_values_of(f.events);
    let m = string_members(ks, vs).push(("events"@, JsonV::Array(evs)));
    assert(m[0].0 == "generated_at"@);
    assert(m[1].0 == "username"@);
    assert(m[2].0 == "events"@);
    assert forall|a: int, b: int| 0 <= a < b < m.len() implies (#[trigger] m[a]).0 != (#[trigger] m[b]).0 by {}
    lemma_key_index_distinct(m, 0);
    lemma_key_index_distinct(m, 1);
    lemma_key_index_distinct(m, 2);
    assert(m[0].1 == JsonV::Str(f.generated_at));
    assert(m[1].1 == JsonV::Str(f.username));
    assert(evs.len() == f.events.len());
}

/// Reading back the JSON text of a feed gives the feed: every field of the
/// feed and of each event comes back as it was written.
pub proof fn lemma_feed_json_round_trip(f: FeedV)
    ensures
        read_feed(feed_json(f)) == Ok::<FeedV, Seq<char>>(f),
{
    reveal_strlit("generated_at");
    reveal_strlit("username");
    reveal_strlit("events");
    lemma_feed_value(f);
    let ks = feed_keys();
    let vs = seq![f.generated_at, f.username];
    let evs = event_values_of(f.events);
    let m = string_members(ks, vs).push(("events"@, JsonV::Array(evs)));
    assert(m[0].0 == "generated_at"@);
    assert(m[1].0 == "username"@);
    assert(m[2].0 == "events"@);
    assert forall|a: int, b: int| 0 <= a < b < m.len() implies (#[trigger] m[a]).0 != (#[trigger] m[b]).0 by {}
    lemma_key_index_distinct(m, 0);
    lemma_key_index_distinct(m, 1);
    lemma_key_index_distinct(m, 2);
    let v = JsonV::Object(m);
    assert(text_field(v, "generated_at"@) == f.generated_at);
    assert(text_field(v, "username"@) == f.username);
    let g = feed_from_json(v);
    assert forall|i: int| 0 <= i < f.events.len() implies g.events[i] == f.events[i] by {
        lemma_event_from_value(f.events[i]);
    }
    assert(g.events =~= f.events);
}

} // verus!
