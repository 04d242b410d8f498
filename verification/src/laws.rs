//! What the library's operations are for, stated over all inputs: the JSON
//! literals are values, comments by the user all become events, the
//! configured title is the title, topics are searched for keywords, and the
//! page shows every event with its status.
use vstd::prelude::*;
use crate::json::{is_json_ws, json_get, lemma_ws_end, parse_json_text, value_at, ws_end, JsonV};
use crate::roundtrip::lemma_ws_skip;
use crate::feed::{text_field, EventV};
use crate::config::{config_line, config_lines, before_hash, ConfigV};
use crate::escape::unescaped;
use crate::text::{first_index_of, lemma_first_index_of, trim, trim_start, trim_end, is_ws};
use crate::render::{
    item_text, items_text, lemma_thread_before_strict, lemma_thread_before_total, page_text,
    thread_before, thread_events, thread_ids, thread_order, thread_text, threads_text,
    timeline_text,
};
use crate::escape::{html_attr_text, html_text, short_date_text};
use crate::feed::FeedV;
use crate::sorted::{lemma_insert_sorted_by, sorted_by, strict_order};
use crate::text::{contains_text, occurs_at, replaced};
use crate::toml::{lemma_line_end, line_end, line_scan, line_scan_step, logical_lines, strip_cr, text_lines, toml_string};
use crate::config::parse_config;
use crate::github::{
    any_occurs, array_member, comment_event, comments_of, haystack, keywords_in, lowercase,
    lowercase_all, thread_comment_events, threads_comment_events, topic_names,
};

verus! {

/// Where a value is expected, the keywords `false`, `true` and `null` read
/// as the literal they spell, whatever follows them.
pub proof fn lemma_literals_are_values(s: Seq<char>, p: int)
    requires
        0 <= p <= s.len(),
    ensures
        ws_end(s, p) + 5 <= s.len() && s.subrange(ws_end(s, p), ws_end(s, p) + 5) == "false"@
            ==> value_at(s, p) == Ok::<(JsonV, int), Seq<char>>((JsonV::Bool, ws_end(s, p) + 5)),
        ws_end(s, p) + 4 <= s.len() && s.subrange(ws_end(s, p), ws_end(s, p) + 4) == "true"@
            ==> value_at(s, p) == Ok::<(JsonV, int), Seq<char>>((JsonV::Bool, ws_end(s, p) + 4)),
        ws_end(s, p) + 4 <= s.len() && s.subrange(ws_end(s, p), ws_end(s, p) + 4) == "null"@
            ==> value_at(s, p) == Ok::<(JsonV, int), Seq<char>>((JsonV::Null, ws_end(s, p) + 4)),
{
    reveal_strlit("false");
    reveal_strlit("true");
    reveal_strlit("null");
    lemma_ws_end(s, p);
    let q = ws_end(s, p);
    if q + 5 <= s.len() && s.subrange(q, q + 5) == "false"@ {
        assert(s[q] == s.subrange(q, q + 5)[0]);
    }
    if q + 4 <= s.len() && s.subrange(q, q + 4) == "true"@ {
        assert(s[q] == s.subrange(q, q + 4)[0]);
    }
    if q + 4 <= s.len() && s.subrange(q, q + 4) == "null"@ {
        assert(s[q] == s.subrange(q, q + 4)[0]);
    }
}

/// Only whitespace.
pub open spec fn all_ws(w: Seq<char>) -> bool {
    forall|i: int| 0 <= i < w.len() ==> is_json_ws(#[trigger] w[i])
}

/// A document that is `false`, `true` or `null` between whitespace parses as
/// that literal.
pub proof fn lemma_literal_documents(w1: Seq<char>, w2: Seq<char>)
    requires
        all_ws(w1),
        all_ws(w2),
    ensures
        parse_json_text(w1 + "false"@ + w2) == Ok::<JsonV, Seq<char>>(JsonV::Bool),
        parse_json_text(w1 + "true"@ + w2) == Ok::<JsonV, Seq<char>>(JsonV::Bool),
        parse_json_text(w1 + "null"@ + w2) == Ok::<JsonV, Seq<char>>(JsonV::Null),
{
    reveal_strlit("false");
    reveal_strlit("true");
    reveal_strlit("null");
    let lits = seq!["false"@, "true"@, "null"@];
    assert forall|j: int| 0 <= j < 3 implies ({
        let lit = #[trigger] lits[j];
        let s = w1 + lit + w2;
        ws_end(s, 0) == w1.len() && ws_end(s, (w1.len() + lit.len()) as int) == s.len()
            && s.subrange(w1.len() as int, (w1.len() + lit.len()) as int) == lit
    }) by {
        let lit = lits[j];
        let s = w1 + lit + w2;
        assert(!is_json_ws(lit[0]));
        assert(s[w1.len() as int] == lit[0]);
        assert forall|i: int| 0 <= i < w1.len() implies is_json_ws(#[trigger] s[i]) by {
            assert(s[i] == w1[i]);
        }
        lemma_ws_skip(s, 0, w1.len() as int);
        assert forall|i: int| (w1.len() + lit.len()) as int <= i < s.len() implies is_json_ws(#[trigger] s[i]) by {
            assert(s[i] == w2[i - w1.len() - lit.len()]);
        }
        lemma_ws_skip(s, (w1.len() + lit.len()) as int, w2.len() as int);
        assert(s.subrange(w1.len() as int, (w1.len() + lit.len()) as int) =~= lit);
    }
    assert(lits[0] == "false"@);
    assert(lits[1] == "true"@);
    assert(lits[2] == "null"@);
    lemma_literals_are_values(w1 + "false"@ + w2, 0);
    lemma_literals_are_values(w1 + "true"@ + w2, 0);
    lemma_literals_are_values(w1 + "null"@ + w2, 0);
}

/// Whether `user` wrote the comment: its author's login is that name.
pub open spec fn written_by(comment: JsonV, user: Seq<char>) -> bool {
    match json_get(comment, "author"@) {
        Some(a) => json_get(a, "login"@) == Some(JsonV::Str(user)),
        None => false,
    }
}

/// How many comments of the threads `user` wrote.
pub open spec fn comments_written(threads: Seq<JsonV>, user: Seq<char>) -> nat
    decreases threads.len(),
{
    if threads.len() == 0 {
        0
    } else {
        comments_written(threads.drop_last(), user) + comments_of(threads.last()).filter(
            |c: JsonV| written_by(c, user),
        ).len()
    }
}

/// The event of a comment: a `comment` event with the comment's id, url and time.
pub open spec fn is_comment_event_of(e: EventV, comment: JsonV) -> bool {
    &&& e.event_type == "comment"@
    &&& e.id == text_field(comment, "id"@)
    &&& e.url == text_field(comment, "url"@)
    &&& e.occurred_at == text_field(comment, "createdAt"@)
}

proof fn lemma_thread_comments(thread: JsonV, comments: Seq<JsonV>, user: Seq<char>, table: Seq<(String, i64)>)
    ensures
        thread_comment_events(thread, comments, user, table).len() == comments.filter(|c: JsonV| written_by(c, user)).len(),
        forall|j: int| 0 <= j < comments.len() && written_by(#[trigger] comments[j], user) ==> exists|k: int|
            0 <= k < thread_comment_events(thread, comments, user, table).len()
                && is_comment_event_of(thread_comment_events(thread, comments, user, table)[k], comments[j]),
        forall|k: int| 0 <= k < thread_comment_events(thread, comments, user, table).len() ==>
            (#[trigger] thread_comment_events(thread, comments, user, table)[k]).event_type == "comment"@,
    decreases comments.len(),
{
    let p = |c: JsonV| written_by(c, user);
    if comments.len() == 0 {
        comments.lemma_all_neg_filter_empty(p);
    } else {
        let init = comments.drop_last();
        let last = comments.last();
        lemma_thread_comments(thread, init, user, table);
        assert(comments =~= init.push(last));
        init.lemma_filter_push(last, p);
        let prev = thread_comment_events(thread, init, user, table);
        let all = thread_comment_events(thread, comments, user, table);
        assert(written_by(last, user) == (comment_event(thread, last, user, table) is Some));
        assert forall|j: int| 0 <= j < comments.len() && written_by(#[trigger] comments[j], user) implies exists|k: int|
            0 <= k < all.len() && is_comment_event_of(all[k], comments[j]) by {
            if j < init.len() {
                assert(comments[j] == init[j]);
                let k = choose|k: int| 0 <= k < prev.len() && is_comment_event_of(prev[k], init[j]);
                assert(all[k] == prev[k]);
            } else {
                assert(all[all.len() - 1] == comment_event(thread, last, user, table)->Some_0);
            }
        }
        assert forall|k: int| 0 <= k < all.len() implies (#[trigger] all[k]).event_type == "comment"@ by {
            if k < prev.len() {
                assert(all[k] == prev[k]);
            }
        }
    }
}

/// Every comment that `user` wrote gives one event and nothing else does:
/// the events of a comment search are as many as the user's comments, each
/// of those comments has its event, with its id, url and time, and every
/// event is a `comment` event.
pub proof fn lemma_comment_events_complete(threads: Seq<JsonV>, user: Seq<char>, table: Seq<(String, i64)>)
    ensures
        threads_comment_events(threads, user, table).len() == comments_written(threads, user),
        forall|i: int, j: int| 0 <= i < threads.len() && 0 <= j < comments_of(threads[i]).len()
            && written_by(#[trigger] comments_of(threads[i])[j], user) ==> exists|k: int|
            0 <= k < threads_comment_events(threads, user, table).len()
                && is_comment_event_of(threads_comment_events(threads, user, table)[k], comments_of(threads[i])[j]),
        forall|k: int| 0 <= k < threads_comment_events(threads, user, table).len() ==>
            (#[trigger] threads_comment_events(threads, user, table)[k]).event_type == "comment"@,
    decreases threads.len(),
{
    if threads.len() > 0 {
        let init = threads.drop_last();
        let t = threads.last();
        lemma_comment_events_complete(init, user, table);
        lemma_thread_comments(t, comments_of(t), user, table);
        let prev = threads_comment_events(init, user, table);
        let mine = thread_comment_events(t, comments_of(t), user, table);
        let all = threads_comment_events(threads, user, table);
        assert(all == prev + mine);
        assert forall|i: int, j: int| 0 <= i < threads.len() && 0 <= j < comments_of(threads[i]).len()
            && written_by(#[trigger] comments_of(threads[i])[j], user) implies exists|k: int|
            0 <= k < all.len() && is_comment_event_of(all[k], comments_of(threads[i])[j]) by {
            if i < init.len() {
                assert(threads[i] == init[i]);
                assert(comments_of(init[i])[j] == comments_of(threads[i])[j]);
                let k = choose|k: int| 0 <= k < prev.len() && is_comment_event_of(prev[k], comments_of(init[i])[j]);
                assert(all[k] == prev[k]);
            } else {
                assert(threads[i] == t);
                let k = choose|k: int| 0 <= k < mine.len() && is_comment_event_of(mine[k], comments_of(t)[j]);
                assert(all[prev.len() + k] == mine[k]);
            }
        }
        assert forall|k: int| 0 <= k < all.len() implies (#[trigger] all[k]).event_type == "comment"@ by {
            if k < prev.len() {
                assert(all[k] == prev[k]);
            } else {
                assert(all[k] == mine[k - prev.len()]);
            }
        }
    }
}

proof fn lemma_first_index_at(s: Seq<char>, c: char, k: int)
    requires
        0 <= k <= s.len(),
        k < s.len() ==> s[k] == c,
        forall|j: int| 0 <= j < k ==> s[j] != c,
    ensures
        first_index_of(s, c) == k,
{
    lemma_first_index_of(s, c);
    let f = first_index_of(s, c);
    if f < k {
        assert(s[f] == c);
    }
    if f > k {
        assert(s[k] != c);
    }
}

/// A text that neither starts nor ends with whitespace is its own trim.
proof fn lemma_trim_plain(s: Seq<char>)
    requires
        s.len() > 0,
        !is_ws(s[0]),
        !is_ws(s.last()),
    ensures
        trim(s) == s,
{
    assert(trim_start(s) == s);
    assert(trim_end(s) == s);
}

/// The line that sets the title to the quoted text `v`.
pub open spec fn title_line(v: Seq<char>) -> Seq<char> {
    "title = \""@ + v + "\""@
}

/// A `title` line sets the title: after the configuration lines `ls`, a
/// line `title = "v"` (with no `#` in `v`, which would start a comment)
/// makes the title the text between the quotes, unescaped, and changes
/// nothing else.
pub proof fn lemma_title_line_sets_title(ls: Seq<Seq<char>>, v: Seq<char>)
    requires
        !v.contains('#'),
    ensures
        config_lines(ls) matches Ok(c) ==> config_lines(ls.push(title_line(v))) == Ok::<ConfigV, Seq<char>>(
            ConfigV { title: unescaped(v), ..c },
        ),
{
    reveal_strlit("title = \"");
    reveal_strlit("\"");
    reveal_strlit("title");
    reveal_strlit("username");
    let l = title_line(v);
    let n = l.len();
    assert(l[0] == 't' && l[5] == ' ' && l[6] == '=' && l[7] == ' ' && l[8] == '"');
    assert(l[n - 1] == '"');
    assert forall|j: int| 0 <= j < n implies l[j] != '#' by {
        if 9 <= j < n - 1 {
            assert(l[j] == v[j - 9]);
        }
    }
    lemma_first_index_at(l, '#', n as int);
    assert(l.take(n as int) =~= l);
    assert(before_hash(l) == l);
    lemma_trim_plain(l);
    assert(l.contains('='));
    lemma_first_index_at(l, '=', 6);
    let key0 = l.take(6);
    assert(trim_end(key0) == trim_end(key0.drop_last()));
    assert(key0.drop_last() =~= "title"@);
    lemma_trim_plain("title"@);
    assert(trim_start(key0) == key0);
    assert(trim(key0) == trim_end(key0));
    assert(trim(key0) == "title"@);
    assert("title"@ != "username"@);
    let rest = l.skip(7);
    let value = seq!['"'] + v + seq!['"'];
    assert(rest =~= seq![' '] + value);
    assert(trim_start(rest) == trim_start(rest.drop_first()));
    assert(rest.drop_first() =~= value);
    lemma_trim_plain(value);
    assert(trim_start(value) == value);
    assert(trim_end(value) == value);
    assert(trim(rest) == value);
    assert(value.subrange(1, value.len() - 1) =~= v);
    assert(toml_string(value) == Ok::<Seq<char>, Seq<char>>(unescaped(v)));
    assert(ls.push(l).drop_last() =~= ls);
}

proof fn lemma_line_end_at(s: Seq<char>, k: int)
    requires
        0 <= k <= s.len(),
        k < s.len() ==> s[k] == '\n',
        forall|j: int| 0 <= j < k ==> s[j] != '\n',
    ensures
        line_end(s) == k,
{
    lemma_line_end(s);
    let f = line_end(s);
    if f < k {
        assert(s[f] == '\n');
    }
    if f > k {
        assert(s[k] != '\n');
    }
}

/// Lines after a text that ends a line are the lines of each part.
proof fn lemma_text_lines_concat(a: Seq<char>, b: Seq<char>)
    requires
        a.len() == 0 || a.last() == '\n',
    ensures
        text_lines(a + b) == text_lines(a) + text_lines(b),
    decreases a.len(),
{
    if a.len() == 0 {
        assert(a + b =~= b);
        assert(text_lines(a) =~= Seq::<Seq<char>>::empty());
        assert(text_lines(a) + text_lines(b) =~= text_lines(b));
    } else {
        lemma_line_end(a);
        let e = line_end(a);
        if e == a.len() {
            assert(a[a.len() - 1] != '\n');
        }
        assert(e < a.len());
        let s = a + b;
        assert forall|j: int| 0 <= j < e implies s[j] != '\n' by {
            assert(s[j] == a[j]);
        }
        lemma_line_end_at(s, e);
        assert(s.take(e) =~= a.take(e));
        assert(s.skip(e + 1) =~= a.skip(e + 1) + b);
        let a2 = a.skip(e + 1);
        if a2.len() > 0 {
            assert(a2.last() == a.last());
        }
        lemma_text_lines_concat(a2, b);
        assert(text_lines(s) =~= text_lines(a) + text_lines(b));
    }
}

/// A `title` line added to a configuration text sets the title: when the
/// text `raw` reads, ends its last line and leaves no array open, the text
/// with the line `title = "v"` after it (`v` holding no `#`, `[` or line
/// break) reads the same but for the title, which is `v` unescaped.
pub proof fn lemma_title_line_in_text(raw: Seq<char>, v: Seq<char>)
    requires
        raw.len() == 0 || raw.last() == '\n',
        line_scan(text_lines(raw)).current.len() == 0,
        !line_scan(text_lines(raw)).in_array,
        !v.contains('#'),
        !v.contains('['),
        !v.contains('\n'),
    ensures
        parse_config(raw) matches Ok(c) ==> parse_config(raw + title_line(v) + "\n"@) == Ok::<ConfigV, Seq<char>>(
            ConfigV { title: unescaped(v), ..c },
        ),
{
    reveal_strlit("title = \"");
    reveal_strlit("\"");
    reveal_strlit("\n");
    let l = title_line(v);
    let n = l.len();
    let tail = l + "\n"@;
    assert(l[0] == 't' && l[n - 1] == '"');
    assert forall|j: int| 0 <= j < n implies l[j] != '\n' && l[j] != '[' by {
        if 9 <= j < n - 1 {
            assert(l[j] == v[j - 9]);
        }
    }
    assert forall|j: int| 0 <= j < n implies tail[j] != '\n' by {
        assert(tail[j] == l[j]);
    }
    assert(tail[n as int] == '\n');
    lemma_line_end_at(tail, n as int);
    assert(tail.take(n as int) =~= l);
    assert(strip_cr(l) == l);
    assert(tail.skip(n as int + 1) =~= Seq::<char>::empty());
    assert(text_lines(Seq::<char>::empty()) =~= Seq::<Seq<char>>::empty());
    assert(tail.len() == n + 1);
    assert(text_lines(tail) == seq![strip_cr(tail.take(n as int))] + text_lines(tail.skip(n as int + 1)));
    assert(text_lines(tail) =~= seq![l]);
    assert(raw + l + "\n"@ =~= raw + tail);
    lemma_text_lines_concat(raw, tail);
    let ls = text_lines(raw);
    assert(text_lines(raw + tail) =~= ls.push(l));
    assert(ls.push(l).drop_last() =~= ls);
    lemma_trim_plain(l);
    assert(!l.contains('['));
    let st = line_scan(ls);
    assert(line_scan(ls.push(l)) == line_scan_step(st, l));
    assert(line_scan_step(st, l).lines == st.lines.push(l));
    assert(line_scan_step(st, l).current.len() == 0);
    assert(logical_lines(raw) == st.lines);
    assert(logical_lines(raw + tail) == st.lines.push(l));
    lemma_title_line_sets_title(st.lines, v);
}

/// The name of the topic node `i` of a repository, when the answer gives one.
pub open spec fn topic_name(repo: JsonV, i: int) -> Option<Seq<char>> {
    match json_get(repo, "repositoryTopics"@) {
        Some(t) => match json_get(t, "nodes"@) {
            Some(JsonV::Array(nodes)) => if 0 <= i < nodes.len() {
                match json_get(nodes[i], "topic"@) {
                    Some(tp) => match json_get(tp, "name"@) {
                        Some(JsonV::Str(n)) => Some(n),
                        _ => None,
                    },
                    None => None,
                }
            } else {
                None
            },
            _ => None,
        },
        None => None,
    }
}

proof fn lemma_topic_in_names(nodes: Seq<JsonV>, i: int, name: Seq<char>)
    requires
        0 <= i < nodes.len(),
        (match json_get(nodes[i], "topic"@) {
            Some(tp) => json_get(tp, "name"@) == Some(JsonV::Str(name)),
            None => false,
        }),
    ensures
        exists|pre: Seq<char>, post: Seq<char>| topic_names(nodes) == pre + name + " "@ + post,
    decreases nodes.len(),
{
    let init = nodes.drop_last();
    if i == nodes.len() - 1 {
        let pre = topic_names(init);
        assert(topic_names(nodes) =~= pre + name + " "@ + Seq::<char>::empty());
    } else {
        assert(nodes[i] == init[i]);
        lemma_topic_in_names(init, i, name);
        let (pre, post) = choose|pre: Seq<char>, post: Seq<char>| topic_names(init) == pre + name + " "@ + post;
        let last_part = topic_names(nodes).subrange(topic_names(init).len() as int, topic_names(nodes).len() as int);
        assert(topic_names(nodes) =~= topic_names(init) + last_part);
        assert(topic_names(nodes) =~= pre + name + " "@ + (post + last_part));
    }
}

/// Whether the repository matches keywords exactly when the keywords,
/// lowercased, occur in `text` lowercased.
pub open spec fn searched_as(repo: JsonV, text: Seq<char>) -> bool {
    forall|ks: Seq<Seq<char>>| #[trigger] keywords_in(Some(repo), ks) == any_occurs(lowercase(text), lowercase_all(ks))
}

/// Topics are searched for keywords: for each topic name of a repository,
/// whether the repository matches any keywords is whether the keywords,
/// lowercased, occur in one lowercased text that holds that name.
pub proof fn lemma_topics_are_searched(repo: JsonV, i: int, name: Seq<char>)
    requires
        topic_name(repo, i) == Some(name),
    ensures
        exists|pre: Seq<char>, post: Seq<char>| #[trigger] searched_as(repo, pre + name + post),
{
    let t = json_get(repo, "repositoryTopics"@)->Some_0;
    let nodes = array_member(t, "nodes"@);
    lemma_topic_in_names(nodes, i, name);
    let (pre0, post0) = choose|pre: Seq<char>, post: Seq<char>| topic_names(nodes) == pre + name + " "@ + post;
    let head = haystack(repo).subrange(0, haystack(repo).len() - topic_names(nodes).len());
    assert(haystack(repo) =~= head + topic_names(nodes));
    let pre = head + pre0;
    let post = " "@ + post0;
    assert(haystack(repo) =~= pre + name + post);
    assert forall|ks: Seq<Seq<char>>| #[trigger] keywords_in(Some(repo), ks)
        == any_occurs(lowercase(pre + name + post), lowercase_all(ks)) by {}
    assert(searched_as(repo, pre + name + post));
}

/// A text occurs in any text that holds a text it occurs in.
proof fn lemma_contains_within(a: Seq<char>, x: Seq<char>, b: Seq<char>, y: Seq<char>)
    requires
        contains_text(x, y),
    ensures
        contains_text(a + x + b, y),
{
    let i = choose|i: int| #[trigger] occurs_at(x, y, i);
    let h = a + x + b;
    assert(h.subrange(a.len() + i, a.len() + i + y.len()) =~= x.subrange(i, i + y.len()));
    assert(occurs_at(h, y, a.len() + i));
}

/// A text occurs in itself.
proof fn lemma_contains_self(x: Seq<char>)
    ensures
        contains_text(x, x),
{
    assert(x.subrange(0, x.len() as int) =~= x);
    assert(occurs_at(x, x, 0));
}

proof fn lemma_items_hold(g: Seq<EventV>, j: int)
    requires
        0 <= j < g.len(),
    ensures
        contains_text(items_text(g), item_text(g[j])),
    decreases g.len(),
{
    let init = g.drop_last();
    if j == g.len() - 1 {
        lemma_contains_self(item_text(g[j]));
        lemma_contains_within(items_text(init), item_text(g[j]), Seq::empty(), item_text(g[j]));
        assert(items_text(init) + item_text(g[j]) + Seq::<char>::empty() =~= items_text(g));
    } else {
        assert(g[j] == init[j]);
        lemma_items_hold(init, j);
        lemma_contains_within(Seq::empty(), items_text(init), item_text(g.last()), item_text(g[j]));
        assert(Seq::<char>::empty() + items_text(init) + item_text(g.last()) =~= items_text(g));
    }
}

proof fn lemma_threads_hold(es: Seq<EventV>, ts: Seq<Seq<char>>, k: int)
    requires
        0 <= k < ts.len(),
    ensures
        contains_text(threads_text(es, ts), thread_text(thread_events(es, ts[k]))),
    decreases ts.len(),
{
    let init = ts.drop_last();
    let x = thread_text(thread_events(es, ts[k]));
    if k == ts.len() - 1 {
        lemma_contains_self(x);
        lemma_contains_within(threads_text(es, init), x, Seq::empty(), x);
        assert(threads_text(es, init) + x + Seq::<char>::empty() =~= threads_text(es, ts));
    } else {
        assert(ts[k] == init[k]);
        lemma_threads_hold(es, init, k);
        let last = thread_text(thread_events(es, ts.last()));
        lemma_contains_within(Seq::empty(), threads_text(es, init), last, x);
        assert(Seq::<char>::empty() + threads_text(es, init) + last =~= threads_text(es, ts));
    }
}

/// Under a strict order that ranks any two different elements, an element
/// can be put into a sorted sequence that lacks it.
proof fn lemma_insert_exists<A>(q: Seq<A>, x: A, lt: spec_fn(A, A) -> bool)
    requires
        strict_order(lt),
        forall|a: A, b: A| a != b ==> #[trigger] lt(a, b) || lt(b, a),
        sorted_by(q, lt),
        !q.contains(x),
    ensures
        exists|r: Seq<A>| sorted_by(r, lt) && #[trigger] r.to_set() == q.to_set().insert(x),
    decreases q.len(),
{
    if q.len() == 0 {
        lemma_insert_sorted_by(q, 0, x, lt);
        assert(sorted_by(q.insert(0, x), lt) && q.insert(0, x).to_set() == q.to_set().insert(x));
    } else if lt(x, q[0]) {
        assert forall|k: int| 0 <= k < q.len() implies lt(x, #[trigger] q[k]) by {
            if k > 0 {
                assert(lt(q[0], q[k]));
            }
        }
        lemma_insert_sorted_by(q, 0, x, lt);
        assert(sorted_by(q.insert(0, x), lt) && q.insert(0, x).to_set() == q.to_set().insert(x));
    } else {
        assert(q[0] != x);
        assert(lt(q[0], x));
        let t = q.drop_first();
        assert forall|a: int, b: int| 0 <= a < b < t.len() implies lt(#[trigger] t[a], #[trigger] t[b]) by {
            assert(t[a] == q[a + 1] && t[b] == q[b + 1]);
        }
        assert(!t.contains(x)) by {
            if t.contains(x) {
                let k = choose|k: int| 0 <= k < t.len() && t[k] == x;
                assert(q[k + 1] == x);
            }
        }
        lemma_insert_exists(t, x, lt);
        let r0 = choose|r: Seq<A>| sorted_by(r, lt) && #[trigger] r.to_set() == t.to_set().insert(x);
        let r = seq![q[0]] + r0;
        assert forall|y: A| r0.to_set().contains(y) implies lt(q[0], y) by {
            if y != x {
                let k = choose|k: int| 0 <= k < t.len() && t[k] == y;
                assert(q[k + 1] == y);
            }
        }
        assert forall|a: int, b: int| 0 <= a < b < r.len() implies lt(#[trigger] r[a], #[trigger] r[b]) by {
            if a == 0 {
                assert(r[b] == r0[b - 1]);
                assert(r0.to_set().contains(r0[b - 1]));
            } else {
                assert(r[a] == r0[a - 1] && r[b] == r0[b - 1]);
            }
        }
        assert forall|y: A| r.to_set().contains(y) == q.to_set().insert(x).contains(y) by {
            if r.to_set().contains(y) {
                let k = choose|k: int| 0 <= k < r.len() && r[k] == y;
                if k == 0 {
                    assert(q[0] == y);
                } else {
                    assert(r0[k - 1] == y);
                    assert(r0.to_set().contains(y));
                    if y != x {
                        let m = choose|m: int| 0 <= m < t.len() && t[m] == y;
                        assert(q[m + 1] == y);
                    }
                }
            }
            if q.to_set().contains(y) {
                let k = choose|k: int| 0 <= k < q.len() && q[k] == y;
                if k == 0 {
                    assert(r[0] == y);
                } else {
                    assert(t[k - 1] == y);
                    assert(t.to_set().contains(y));
                    assert(r0.to_set().contains(y));
                    let m = choose|m: int| 0 <= m < r0.len() && r0[m] == y;
                    assert(r[m + 1] == y);
                }
            }
            if y == x {
                assert(r0.to_set().contains(x));
                let m = choose|m: int| 0 <= m < r0.len() && r0[m] == x;
                assert(r[m + 1] == x);
            }
        }
        assert(r.to_set() =~= q.to_set().insert(x));
    }
}

/// Any finite collection has a sorted arrangement under such an order.
proof fn lemma_sorted_exists<A>(items: Seq<A>, lt: spec_fn(A, A) -> bool)
    requires
        strict_order(lt),
        forall|a: A, b: A| a != b ==> #[trigger] lt(a, b) || lt(b, a),
    ensures
        exists|r: Seq<A>| sorted_by(r, lt) && #[trigger] r.to_set() == items.to_set(),
    decreases items.len(),
{
    if items.len() == 0 {
        let r = Seq::<A>::empty();
        assert(r.to_set() =~= items.to_set());
        assert(sorted_by(r, lt));
    } else {
        let init = items.drop_last();
        let x = items.last();
        lemma_sorted_exists(init, lt);
        let q = choose|r: Seq<A>| sorted_by(r, lt) && #[trigger] r.to_set() == init.to_set();
        assert(items =~= init.push(x));
        init.lemma_push_to_set_commute(x);
        if q.contains(x) {
            assert(q.to_set().contains(x));
            assert(items.to_set() =~= q.to_set());
            assert(sorted_by(q, lt) && q.to_set() == items.to_set());
        } else {
            lemma_insert_exists(q, x, lt);
        }
    }
}

/// The threads in timeline order are the threads of the events, sorted.
proof fn lemma_thread_order(es: Seq<EventV>)
    ensures
        sorted_by(thread_order(es), |a: Seq<char>, b: Seq<char>| thread_before(es, a, b)),
        thread_order(es).to_set() == thread_ids(es),
{
    let lt = |a: Seq<char>, b: Seq<char>| thread_before(es, a, b);
    lemma_thread_before_strict(es);
    assert forall|a: Seq<char>, b: Seq<char>| a != b implies #[trigger] lt(a, b) || lt(b, a) by {
        lemma_thread_before_total(es, a, b);
    }
    let ids = es.map_values(|e: EventV| e.thread_id);
    lemma_sorted_exists(ids, lt);
}

/// The status badge of an event: nothing for an empty status.
pub open spec fn badge(status: Seq<char>) -> Seq<char> {
    if status.len() == 0 {
        Seq::empty()
    } else {
        " <span class=\"btc-status\">"@ + html_text(status) + "</span>"@
    }
}

/// The line of an event on the page: its kind, time, date, kind in words,
/// link, and status badge right before `</li>`.
pub open spec fn event_line(e: EventV) -> Seq<char> {
    "<li data-type=\""@ + html_attr_text(e.event_type) + "\"><time datetime=\""@ + html_attr_text(
        e.occurred_at,
    ) + "\">"@ + html_text(short_date_text(e.occurred_at)) + "</time> <span class=\"btc-kind\">"@
        + html_text(replaced(e.event_type, "_"@, " "@)) + "</span> <a href=\""@ + html_attr_text(e.url)
        + "\">"@ + html_text(e.title) + "</a>"@ + badge(e.status) + "</li>\n"@
}

/// Occurring is transitive.
proof fn lemma_contains_trans(h: Seq<char>, x: Seq<char>, y: Seq<char>)
    requires
        contains_text(h, x),
        contains_text(x, y),
    ensures
        contains_text(h, y),
{
    let a1 = choose|a: int| #[trigger] occurs_at(h, x, a);
    let a2 = choose|a: int| #[trigger] occurs_at(x, y, a);
    assert(h.subrange(a1 + a2, a1 + a2 + y.len()) =~= x.subrange(a2, a2 + y.len()));
    assert(occurs_at(h, y, a1 + a2));
}

proof fn lemma_thread_holds_items(g: Seq<EventV>)
    requires
        g.len() > 0,
    ensures
        contains_text(thread_text(g), items_text(g)),
{
    let x = items_text(g);
    let head = crate::render::thread_head_text(g[0], g.len()) + "<ol>\n"@;
    assert(thread_text(g) =~= head + x + "</ol></details>\n"@);
    lemma_contains_self(x);
    lemma_contains_within(head, x, "</ol></details>\n"@, x);
}

proof fn lemma_timeline_holds_event(es: Seq<EventV>, i: int)
    requires
        0 <= i < es.len(),
    ensures
        contains_text(timeline_text(es), event_line(es[i])),
{
    let e = es[i];
    let ts = thread_order(es);
    lemma_thread_order(es);
    let ids = es.map_values(|x: EventV| x.thread_id);
    assert(ids[i] == e.thread_id);
    assert(ids.to_set().contains(e.thread_id));
    assert(ts.to_set().contains(e.thread_id));
    let k = choose|k: int| 0 <= k < ts.len() && ts[k] == e.thread_id;
    lemma_threads_hold(es, ts, k);
    let p = |x: EventV| x.thread_id == e.thread_id;
    es.lemma_filter_contains(p, i);
    let g = thread_events(es, e.thread_id);
    assert(g == es.filter(p));
    let j = choose|j: int| 0 <= j < g.len() && g[j] == e;
    lemma_items_hold(g, j);
    assert(item_text(e) =~= event_line(e));
    lemma_thread_holds_items(g);
    lemma_contains_trans(thread_text(g), items_text(g), event_line(e));
    let open = "<div class=\"btc-timeline\" id=\"btc-timeline\">\n"@;
    lemma_contains_within(open, threads_text(es, ts), Seq::empty(), thread_text(g));
    assert(open + threads_text(es, ts) + Seq::<char>::empty() =~= timeline_text(es));
    lemma_contains_trans(timeline_text(es), thread_text(g), event_line(e));
}

proof fn lemma_page_holds_timeline(cfg: ConfigV, f: FeedV)
    ensures
        contains_text(page_text(cfg, f), timeline_text(f.events)),
{
    let es = f.events;
    let repos = crate::render::in_order(crate::render::repos_of(es));
    let types = crate::render::in_order(crate::render::types_of(es));
    let years = crate::render::in_order(crate::render::years_of(es)).reverse();
    let before = crate::render::page_head_text(cfg) + crate::render::intro_text(cfg, f)
        + crate::render::stats_text(es, repos, types) + crate::render::filters_text(cfg, repos, types, years);
    let tl = timeline_text(es);
    let foot = crate::render::page_foot_text(cfg);
    assert(page_text(cfg, f) == before + tl + foot);
    lemma_contains_self(tl);
    lemma_contains_within(before, tl, foot, tl);
}

/// The end of the line of an event with the status `status`: the status in
/// a `btc-status` span, then `</li>`.
pub open spec fn status_tail(status: Seq<char>) -> Seq<char> {
    " <span class=\"btc-status\">"@ + html_text(status) + "</span></li>\n"@
}

proof fn lemma_line_holds_badge(e: EventV)
    requires
        e.status.len() > 0,
    ensures
        contains_text(event_line(e), status_tail(e.status)),
{
    reveal_strlit("</span>");
    reveal_strlit("</li>\n");
    reveal_strlit("</span></li>\n");
    let tail = status_tail(e.status);
    let line_head = "<li data-type=\""@ + html_attr_text(e.event_type) + "\"><time datetime=\""@
        + html_attr_text(e.occurred_at) + "\">"@ + html_text(short_date_text(e.occurred_at))
        + "</time> <span class=\"btc-kind\">"@ + html_text(replaced(e.event_type, "_"@, " "@))
        + "</span> <a href=\""@ + html_attr_text(e.url) + "\">"@ + html_text(e.title) + "</a>"@;
    assert("</span>"@ + "</li>\n"@ =~= "</span></li>\n"@);
    assert(event_line(e) =~= line_head + tail + Seq::<char>::empty());
    lemma_contains_self(tail);
    lemma_contains_within(line_head, tail, Seq::empty(), tail);
}

/// The page shows every event of the feed: it holds each event's line, with
/// the event's status badge (when the status is not empty, its HTML-escaped
/// text in a `btc-status` span) right before `</li>`.
pub proof fn lemma_page_shows_every_event(cfg: ConfigV, f: FeedV, i: int)
    requires
        0 <= i < f.events.len(),
    ensures
        contains_text(page_text(cfg, f), event_line(f.events[i])),
        f.events[i].status.len() > 0 ==> contains_text(
            page_text(cfg, f),
            status_tail(f.events[i].status),
        ),
{
    let e = f.events[i];
    lemma_timeline_holds_event(f.events, i);
    lemma_page_holds_timeline(cfg, f);
    lemma_contains_trans(page_text(cfg, f), timeline_text(f.events), event_line(e));
    if e.status.len() > 0 {
        lemma_line_holds_badge(e);
        lemma_contains_trans(page_text(cfg, f), event_line(e), status_tail(e.status));
    }
}

} // verus!
