//! The static page: a summary of the feed, filters over its repositories,
//! kinds and years, and the timeline of threads, latest first.
use vstd::prelude::*;
use crate::config::{Config, ConfigV};
use crate::dates::{dec_text, push_dec};
use crate::escape::{
    byte_prefix, byte_prefix_chars, html, html_attr, html_attr_text, html_text, icon, icon_text,
    short_date, short_date_text, status_badge, status_badge_text,
};
use crate::feed::{event_views, Event, EventV, Feed, FeedV};
use crate::sorted::{
    insert_sorted, lemma_insert_sorted_by, lemma_sorted_by_unique, lemma_sorted_unique, sorted_by,
    strict_order, strictly_sorted,
};
use crate::text::{
    chars_of, lemma_text_lt_irreflexive, lemma_text_lt_total, lemma_text_lt_transitive,
    replace_chars, replaced, string_of, string_order, text_lt, TextOrder,
};
use crate::toml::string_views;

verus! {

/// The texts of a finite set in increasing order.
pub open spec fn in_order(s: Set<Seq<char>>) -> Seq<Seq<char>> {
    choose|q: Seq<Seq<char>>| strictly_sorted(q) && q.to_set() == s
}

/// A strictly increasing sequence is the ordered form of its set.
pub proof fn lemma_in_order(q: Seq<Seq<char>>)
    requires
        strictly_sorted(q),
    ensures
        in_order(q.to_set()) == q,
{
    let s = q.to_set();
    assert(strictly_sorted(q) && q.to_set() == s);
    let c = in_order(s);
    lemma_sorted_unique(c, q);
}

/// The repositories of the events.
pub open spec fn repos_of(es: Seq<EventV>) -> Set<Seq<char>> {
    es.map_values(|e: EventV| e.repo).to_set()
}

/// The kinds of the events.
pub open spec fn types_of(es: Seq<EventV>) -> Set<Seq<char>> {
    es.map_values(|e: EventV| e.event_type).to_set()
}

/// The year of an event: the first four bytes of its time, if they end on a
/// character boundary.
pub open spec fn year_of(e: EventV) -> Option<Seq<char>> {
    byte_prefix(e.occurred_at, 4)
}

/// The years of the events.
pub open spec fn years_of(es: Seq<EventV>) -> Set<Seq<char>> {
    es.filter_map(|e: EventV| year_of(e)).to_set()
}

/// How many events are of the kind `t`.
pub open spec fn type_count(es: Seq<EventV>, t: Seq<char>) -> nat {
    es.filter(|e: EventV| e.event_type == t).len()
}

/// `s` with each `_` written as a space.
pub open spec fn spaced(s: Seq<char>) -> Seq<char> {
    replaced(s, "_"@, " "@)
}

/// One figure of the summary.
pub open spec fn stat_text(label: Seq<char>, value: nat) -> Seq<char> {
    "<div><strong>"@ + dec_text(value) + "</strong><span>"@ + html_text(spaced(label))
        + "</span></div>\n"@
}

/// The figure of each kind, kinds in the order given.
pub open spec fn type_stats_text(es: Seq<EventV>, types: Seq<Seq<char>>) -> Seq<char>
    decreases types.len(),
{
    if types.len() == 0 {
        Seq::empty()
    } else {
        type_stats_text(es, types.drop_last()) + stat_text(types.last(), type_count(es, types.last()))
    }
}

/// One choice of a filter.
pub open spec fn option_text(o: Seq<char>) -> Seq<char> {
    "<option value=\""@ + html_attr_text(o) + "\">"@ + html_text(o) + "</option>\n"@
}

/// The choices of a filter, in the order given.
pub open spec fn options_text(os: Seq<Seq<char>>) -> Seq<char>
    decreases os.len(),
{
    if os.len() == 0 {
        Seq::empty()
    } else {
        options_text(os.drop_last()) + option_text(os.last())
    }
}

/// A filter: a labelled list whose first choice is `All`.
pub open spec fn select_text(name: Seq<char>, label: Seq<char>, os: Seq<Seq<char>>) -> Seq<char> {
    "<label>"@ + html_text(label) + "<select name=\""@ + html_attr_text(name)
        + "\"><option value=\"\">All</option>\n"@ + options_text(os) + "</select></label>\n"@
}

/// `s` with each `_` written as a space.
fn spaced_exec(s: &str) -> (r: String)
    ensures
        r@ == spaced(s@),
{
    let cs = chars_of(s);
    let pat = chars_of("_");
    let rep = chars_of(" ");
    proof {
        reveal_strlit("_");
    }
    let out = replace_chars(&cs, &pat, &rep);
    string_of(&out)
}

/// The decimal text of `n`.
fn dec_string(n: u64) -> (r: String)
    ensures
        r@ == dec_text(n as nat),
{
    let mut out: Vec<char> = Vec::new();
    push_dec(&mut out, n);
    assert(out@ =~= dec_text(n as nat));
    string_of(&out)
}

/// Appends one figure of the summary: `value` over `label`, with `_` in the
/// label shown as a space.
pub fn stat(out: &mut String, label: &str, value: usize)
    ensures
        final(out)@ == old(out)@ + stat_text(label@, value as nat),
{
    out.append("<div><strong>");
    out.append(dec_string(value as u64).as_str());
    out.append("</strong><span>");
    out.append(html(spaced_exec(label).as_str()).as_str());
    out.append("</span></div>\n");
    assert(out@ =~= old(out)@ + stat_text(label@, value as nat));
}

/// Appends a filter named `name` with the choices `options`, in order.
pub fn select(out: &mut String, name: &str, label: &str, options: &[String])
    ensures
        final(out)@ == old(out)@ + select_text(name@, label@, string_views(options@)),
{
    let ghost start = out@;
    out.append("<label>");
    out.append(html(label).as_str());
    out.append("<select name=\"");
    out.append(html_attr(name).as_str());
    out.append("\"><option value=\"\">All</option>\n");
    let ghost head = out@;
    let ghost ov = string_views(options@);
    assert(ov.take(0) =~= Seq::<Seq<char>>::empty());
    assert(head + options_text(ov.take(0)) =~= head);
    let mut i: usize = 0;
    while i < options.len()
        invariant
            i <= options@.len(),
            ov == string_views(options@),
            out@ == head + options_text(ov.take(i as int)),
        decreases options@.len() - i,
    {
        assert(ov.take(i + 1).drop_last() =~= ov.take(i as int));
        assert(ov.take(i + 1).last() == options@[i as int]@);
        out.append("<option value=\"");
        out.append(html_attr(options[i].as_str()).as_str());
        out.append("\">");
        out.append(html(options[i].as_str()).as_str());
        out.append("</option>\n");
        assert(out@ =~= head + options_text(ov.take(i + 1)));
        i += 1;
    }
    assert(ov.take(i as int) =~= ov);
    out.append("</select></label>\n");
    assert(out@ =~= start + select_text(name@, label@, ov));
}

/// The year shown for an event, or nothing.
pub open spec fn year_text(e: EventV) -> Seq<char> {
    match year_of(e) {
        Some(y) => y,
        None => Seq::empty(),
    }
}

/// One event of a thread on the timeline.
pub open spec fn item_text(e: EventV) -> Seq<char> {
    "<li data-type=\""@ + html_attr_text(e.event_type) + "\"><time datetime=\""@ + html_attr_text(
        e.occurred_at,
    ) + "\">"@ + html_text(short_date_text(e.occurred_at)) + "</time> <span class=\"btc-kind\">"@
        + html_text(spaced(e.event_type)) + "</span> <a href=\""@ + html_attr_text(e.url) + "\">"@
        + html_text(e.title) + "</a>"@ + status_badge_text(e.status) + "</li>\n"@
}

/// The events of a thread, in order.
pub open spec fn items_text(es: Seq<EventV>) -> Seq<char>
    decreases es.len(),
{
    if es.len() == 0 {
        Seq::empty()
    } else {
        items_text(es.drop_last()) + item_text(es.last())
    }
}

/// The opening of a thread, with the data the filters read from its first event.
pub open spec fn thread_open_text(first: EventV) -> Seq<char> {
    "<details class=\"btc-thread\" open data-repo=\""@ + html_attr_text(first.repo) + "\" data-type=\""@
        + html_attr_text(first.event_type) + "\" data-year=\""@ + html_attr_text(year_text(first))
        + "\">\n"@
}

/// The summary line of a thread: the icon of its first event's kind, a link
/// to the thread, its repository and its number of events.
pub open spec fn thread_summary_text(first: EventV, n: nat) -> Seq<char> {
    "<summary><span class=\"btc-icon\">"@ + icon_text(first.event_type) + "</span><span><a href=\""@
        + html_attr_text(first.thread_url) + "\">"@ + html_text(first.thread_title) + "</a><small>"@
        + html_text(first.repo) + " \u{b7} "@ + dec_text(n) + " item"@ + (if n == 1 {
        Seq::<char>::empty()
    } else {
        "s"@
    }) + "</small></span></summary>\n"@
}

/// The opening of a thread: its filter data and its summary line, taken
/// from its first event, with the number of its events.
pub open spec fn thread_head_text(first: EventV, n: nat) -> Seq<char> {
    thread_open_text(first) + thread_summary_text(first, n)
}

/// A thread on the timeline; `g` holds its events, the first one first.
pub open spec fn thread_text(g: Seq<EventV>) -> Seq<char> {
    thread_head_text(g[0], g.len()) + "<ol>\n"@ + items_text(g) + "</ol></details>\n"@
}

/// The events of the thread `t`, in feed order.
pub open spec fn thread_events(es: Seq<EventV>, t: Seq<char>) -> Seq<EventV> {
    es.filter(|e: EventV| e.thread_id == t)
}

/// When the thread `t` starts: the time of its first event in the feed.
pub open spec fn thread_start(es: Seq<EventV>, t: Seq<char>) -> Seq<char> {
    thread_events(es, t)[0].occurred_at
}

/// Whether the thread `a` comes before the thread `b` on the timeline: the
/// one whose first event is later comes first, then the smaller id.
pub open spec fn thread_before(es: Seq<EventV>, a: Seq<char>, b: Seq<char>) -> bool {
    text_lt(thread_start(es, b), thread_start(es, a)) || (thread_start(es, a) == thread_start(es, b)
        && text_lt(a, b))
}

/// The threads of the events.
pub open spec fn thread_ids(es: Seq<EventV>) -> Set<Seq<char>> {
    es.map_values(|e: EventV| e.thread_id).to_set()
}

/// The threads of the events in timeline order.
pub open spec fn thread_order(es: Seq<EventV>) -> Seq<Seq<char>> {
    choose|q: Seq<Seq<char>>| sorted_by(q, |a: Seq<char>, b: Seq<char>| thread_before(es, a, b)) && q.to_set() == thread_ids(es)
}

/// The threads `ts`, in the order given.
pub open spec fn threads_text(es: Seq<EventV>, ts: Seq<Seq<char>>) -> Seq<char>
    decreases ts.len(),
{
    if ts.len() == 0 {
        Seq::empty()
    } else {
        threads_text(es, ts.drop_last()) + thread_text(thread_events(es, ts.last()))
    }
}

/// The timeline order of threads is a strict order.
pub proof fn lemma_thread_before_strict(es: Seq<EventV>)
    ensures
        strict_order(|a: Seq<char>, b: Seq<char>| thread_before(es, a, b)),
{
    let lt = |a: Seq<char>, b: Seq<char>| thread_before(es, a, b);
    assert forall|x: Seq<char>| !#[trigger] lt(x, x) by {
        lemma_text_lt_irreflexive(thread_start(es, x));
        lemma_text_lt_irreflexive(x);
    }
    assert forall|x: Seq<char>, y: Seq<char>, z: Seq<char>| #[trigger] lt(x, y) && #[trigger] lt(y, z) implies lt(x, z) by {
        let (sx, sy, sz) = (thread_start(es, x), thread_start(es, y), thread_start(es, z));
        if text_lt(sy, sx) {
            if text_lt(sz, sy) {
                lemma_text_lt_transitive(sz, sy, sx);
            }
        } else if text_lt(sz, sy) {
        } else {
            lemma_text_lt_transitive(x, y, z);
        }
    }
}

/// Two different threads are ordered one way or the other.
pub proof fn lemma_thread_before_total(es: Seq<EventV>, a: Seq<char>, b: Seq<char>)
    requires
        a != b,
    ensures
        thread_before(es, a, b) || thread_before(es, b, a),
{
    lemma_text_lt_total(thread_start(es, a), thread_start(es, b));
    lemma_text_lt_total(a, b);
}

/// The first event of a thread that has not occurred before it starts it.
proof fn lemma_thread_start(es: Seq<EventV>, i: int)
    requires
        0 <= i < es.len(),
        !thread_ids(es.take(i)).contains(es[i].thread_id),
    ensures
        thread_events(es, es[i].thread_id).len() > 0,
        thread_start(es, es[i].thread_id) == es[i].occurred_at,
{
    let t = es[i].thread_id;
    let p = |e: EventV| e.thread_id == t;
    let pre = es.take(i);
    let post = es.skip(i);
    assert(es =~= pre + post);
    Seq::filter_distributes_over_add(pre, post, p);
    broadcast use vstd::seq_lib::group_filter_ensures;
    if pre.filter(p).len() > 0 {
        let e = pre.filter(p)[0];
        assert(pre.filter(p).contains(e));
        pre.lemma_filter_contains_rev(p, e);
        let k = choose|k: int| 0 <= k < pre.len() && pre[k] == e;
        assert(pre.map_values(|e: EventV| e.thread_id)[k] == t);
        assert(thread_ids(pre).contains(t));
    }
    assert(post =~= seq![es[i]] + es.skip(i + 1));
    es.skip(i + 1).lemma_filter_prepend(es[i], p);
    assert(es.filter(p) =~= pre.filter(p) + post.filter(p));
    assert(es.filter(p)[0] == es[i]);
}

/// A thread of the events has events.
proof fn lemma_thread_nonempty(es: Seq<EventV>, t: Seq<char>)
    requires
        thread_ids(es).contains(t),
    ensures
        thread_events(es, t).len() > 0,
{
    let ids = es.map_values(|e: EventV| e.thread_id);
    assert(ids.to_set().contains(t));
    let k = choose|k: int| 0 <= k < ids.len() && #[trigger] ids[k] == t;
    es.lemma_filter_contains(|e: EventV| e.thread_id == t, k);
}

/// The repositories, kinds and years of the events, each in increasing order.
fn feed_sets(es: &Vec<Event>) -> (r: (Vec<String>, Vec<String>, Vec<String>))
    ensures
        string_views(r.0@) == in_order(repos_of(event_views(es@))),
        string_views(r.1@) == in_order(types_of(event_views(es@))),
        string_views(r.2@) == in_order(years_of(event_views(es@))),
{
    let ghost ev = event_views(es@);
    let mut repos: Vec<String> = Vec::new();
    let mut types: Vec<String> = Vec::new();
    let mut years: Vec<String> = Vec::new();
    proof {
        assert(ev.take(0) =~= Seq::<EventV>::empty());
        assert(string_views(repos@) =~= Seq::<Seq<char>>::empty());
        assert(repos_of(ev.take(0)) =~= Set::<Seq<char>>::empty());
        assert(types_of(ev.take(0)) =~= Set::<Seq<char>>::empty());
        assert(years_of(ev.take(0)) =~= Set::<Seq<char>>::empty());
        assert(string_views(repos@).to_set() =~= Set::<Seq<char>>::empty());
    }
    let mut i: usize = 0;
    while i < es.len()
        invariant
            i <= es@.len(),
            ev == event_views(es@),
            strictly_sorted(string_views(repos@)),
            strictly_sorted(string_views(types@)),
            strictly_sorted(string_views(years@)),
            string_views(repos@).to_set() == repos_of(ev.take(i as int)),
            string_views(types@).to_set() == types_of(ev.take(i as int)),
            string_views(years@).to_set() == years_of(ev.take(i as int)),
        decreases es@.len() - i,
    {
        let e = &es[i];
        proof {
            assert(ev[i as int] == e@);
            assert(ev.take(i + 1) =~= ev.take(i as int).push(e@));
            let fr = |x: EventV| x.repo;
            let ft = |x: EventV| x.event_type;
            assert(ev.take(i + 1).map_values(fr) =~= ev.take(i as int).map_values(fr).push(e.repo@));
            assert(ev.take(i + 1).map_values(ft) =~= ev.take(i as int).map_values(ft).push(e.event_type@));
            ev.take(i as int).map_values(fr).lemma_push_to_set_commute(e.repo@);
            ev.take(i as int).map_values(ft).lemma_push_to_set_commute(e.event_type@);
            ev.lemma_filter_map_take_succ(|x: EventV| year_of(x), i as int);
        }
        insert_sorted(&mut repos, e.repo.clone());
        insert_sorted(&mut types, e.event_type.clone());
        let occ = chars_of(e.occurred_at.as_str());
        match byte_prefix_chars(&occ, 4) {
            Some(y) => {
                insert_sorted(&mut years, string_of(&y));
                proof {
                    let fy = ev.take(i as int).filter_map(|x: EventV| year_of(x));
                    assert(fy + seq![y@] =~= fy.push(y@));
                    fy.lemma_push_to_set_commute(y@);
                }
            },
            None => {
                proof {
                    let fy = ev.take(i as int).filter_map(|x: EventV| year_of(x));
                    assert(fy + Seq::<Seq<char>>::empty() =~= fy);
                }
            },
        }
        i += 1;
    }
    proof {
        assert(ev.take(i as int) =~= ev);
        lemma_in_order(string_views(repos@));
        lemma_in_order(string_views(types@));
        lemma_in_order(string_views(years@));
    }
    (repos, types, years)
}

/// How many of the events are of the kind `t`.
fn type_count_exec(es: &Vec<Event>, t: &String) -> (r: usize)
    ensures
        r == type_count(event_views(es@), t@),
{
    let ghost ev = event_views(es@);
    let ghost p = |e: EventV| e.event_type == t@;
    let mut n: usize = 0;
    let mut i: usize = 0;
    assert(ev.take(0) =~= Seq::<EventV>::empty());
    assert(ev.take(0).filter(p).len() == 0) by {
        broadcast use vstd::seq_lib::group_filter_ensures;
    }
    while i < es.len()
        invariant
            i <= es@.len(),
            ev == event_views(es@),
            p == (|e: EventV| e.event_type == t@),
            n <= i,
            n == ev.take(i as int).filter(p).len(),
        decreases es@.len() - i,
    {
        proof {
            assert(ev[i as int] == es@[i as int]@);
            assert(ev.take(i + 1) =~= ev.take(i as int).push(ev[i as int]));
            ev.take(i as int).lemma_filter_push(ev[i as int], p);
        }
        if string_order(&es[i].event_type, t) == TextOrder::Equal {
            n += 1;
        }
        i += 1;
    }
    assert(ev.take(i as int) =~= ev);
    n
}

/// Whether the thread `a` that starts at `sa` comes before the thread `b`
/// that starts at `sb`.
fn starts_before(sa: &String, a: &String, sb: &String, b: &String) -> (r: bool)
    ensures
        r == (text_lt(sb@, sa@) || (sa@ == sb@ && text_lt(a@, b@))),
{
    let o = string_order(sb, sa);
    if o == TextOrder::Less {
        true
    } else if o == TextOrder::Equal {
        string_order(a, b) == TextOrder::Less
    } else {
        proof {
            crate::text::lemma_text_lt_asymmetric(sa@, sb@);
            lemma_text_lt_irreflexive(sa@);
        }
        false
    }
}

/// The threads of the events in timeline order.
fn thread_order_exec(es: &Vec<Event>) -> (r: Vec<String>)
    ensures
        string_views(r@) == thread_order(event_views(es@)),
        string_views(r@).to_set() == thread_ids(event_views(es@)),
{
    let ghost ev = event_views(es@);
    let ghost lt = |a: Seq<char>, b: Seq<char>| thread_before(ev, a, b);
    proof {
        lemma_thread_before_strict(ev);
    }
    let mut ids: Vec<String> = Vec::new();
    let mut starts: Vec<String> = Vec::new();
    proof {
        assert(ev.take(0) =~= Seq::<EventV>::empty());
        assert(thread_ids(ev.take(0)) =~= Set::<Seq<char>>::empty());
        assert(string_views(ids@).to_set() =~= Set::<Seq<char>>::empty());
    }
    let mut i: usize = 0;
    while i < es.len()
        invariant
            i <= es@.len(),
            ev == event_views(es@),
            lt == (|a: Seq<char>, b: Seq<char>| thread_before(ev, a, b)),
            strict_order(lt),
            ids@.len() == starts@.len(),
            sorted_by(string_views(ids@), lt),
            forall|k: int| 0 <= k < ids@.len() ==> (#[trigger] starts@[k])@ == thread_start(ev, ids@[k]@),
            string_views(ids@).to_set() == thread_ids(ev.take(i as int)),
        decreases es@.len() - i,
    {
        let e = &es[i];
        let ghost q = string_views(ids@);
        proof {
            assert(ev[i as int] == e@);
            let ft = |x: EventV| x.thread_id;
            assert(ev.take(i + 1).map_values(ft) =~= ev.take(i as int).map_values(ft).push(e.thread_id@));
            ev.take(i as int).map_values(ft).lemma_push_to_set_commute(e.thread_id@);
        }
        if !crate::sorted::sorted_contains(&ids, &e.thread_id) {
            proof {
                lemma_thread_start(ev, i as int);
            }
            let t = &e.thread_id;
            let st = &e.occurred_at;
            let mut p: usize = 0;
            let mut found = false;
            while p < ids.len() && !found
                invariant
                    p <= ids@.len(),
                    ids@.len() == starts@.len(),
                    q == string_views(ids@),
                    strict_order(lt),
                    lt == (|a: Seq<char>, b: Seq<char>| thread_before(ev, a, b)),
                    !q.contains(t@),
                    st@ == thread_start(ev, t@),
                    forall|k: int| 0 <= k < ids@.len() ==> (#[trigger] starts@[k])@ == thread_start(ev, ids@[k]@),
                    forall|k: int| 0 <= k < p ==> lt(#[trigger] q[k], t@),
                    found ==> p < ids@.len() && lt(t@, q[p as int]),
                decreases ids@.len() - p, if found { 0int } else { 1int },
            {
                assert(q[p as int] == ids@[p as int]@);
                if starts_before(st, t, &starts[p], &ids[p]) {
                    found = true;
                } else {
                    proof {
                        assert(q[p as int] != t@);
                        lemma_thread_before_total(ev, q[p as int], t@);
                    }
                    p += 1;
                }
            }
            proof {
                assert forall|k: int| p <= k < q.len() implies lt(t@, #[trigger] q[k]) by {
                    if k > p {
                        assert(lt(q[p as int], q[k]));
                    }
                }
                lemma_insert_sorted_by(q, p as int, t@, lt);
            }
            let ghost old_starts = starts@;
            let ghost old_ids = ids@;
            ids.insert(p, t.clone());
            starts.insert(p, st.clone());
            proof {
                assert(string_views(ids@) =~= q.insert(p as int, t@));
                assert forall|k: int| 0 <= k < ids@.len() implies (#[trigger] starts@[k])@ == thread_start(ev, ids@[k]@) by {
                    if k < p {
                        assert(starts@[k] == old_starts[k] && ids@[k] == old_ids[k]);
                    } else if k > p {
                        assert(starts@[k] == old_starts[k - 1] && ids@[k] == old_ids[k - 1]);
                    }
                }
            }
        } else {
            proof {
                assert(q.to_set().insert(e.thread_id@) =~= q.to_set());
            }
        }
        i += 1;
    }
    proof {
        let q = string_views(ids@);
        assert(ev.take(i as int) =~= ev);
        assert(sorted_by(q, lt) && q.to_set() == thread_ids(ev));
        let c = thread_order(ev);
        lemma_sorted_by_unique(c, q, lt);
    }
    ids
}

/// The events of the thread `t`, in feed order.
fn thread_group(es: &Vec<Event>, t: &String) -> (r: Vec<Event>)
    ensures
        event_views(r@) == thread_events(event_views(es@), t@),
{
    let ghost ev = event_views(es@);
    let ghost p = |e: EventV| e.thread_id == t@;
    let mut g: Vec<Event> = Vec::new();
    assert(ev.take(0) =~= Seq::<EventV>::empty());
    assert(ev.take(0).filter(p) =~= Seq::<EventV>::empty()) by {
        broadcast use vstd::seq_lib::group_filter_ensures;
    }
    assert(event_views(g@) =~= Seq::<EventV>::empty());
    let mut i: usize = 0;
    while i < es.len()
        invariant
            i <= es@.len(),
            ev == event_views(es@),
            p == (|e: EventV| e.thread_id == t@),
            event_views(g@) == ev.take(i as int).filter(p),
        decreases es@.len() - i,
    {
        proof {
            assert(ev[i as int] == es@[i as int]@);
            assert(ev.take(i + 1) =~= ev.take(i as int).push(ev[i as int]));
            ev.take(i as int).lemma_filter_push(ev[i as int], p);
        }
        if string_order(&es[i].thread_id, t) == TextOrder::Equal {
            let e = es[i].duplicate();
            assert(event_views(g@.push(e)) =~= event_views(g@).push(e@));
            g.push(e);
        }
        i += 1;
    }
    assert(ev.take(i as int) =~= ev);
    g
}

/// Appends one event of a thread.
fn push_item(out: &mut String, e: &Event)
    ensures
        final(out)@ == old(out)@ + item_text(e@),
{
    out.append("<li data-type=\"");
    out.append(html_attr(e.event_type.as_str()).as_str());
    out.append("\"><time datetime=\"");
    out.append(html_attr(e.occurred_at.as_str()).as_str());
    out.append("\">");
    out.append(html(short_date(e.occurred_at.as_str()).as_str()).as_str());
    out.append("</time> <span class=\"btc-kind\">");
    out.append(html(spaced_exec(e.event_type.as_str()).as_str()).as_str());
    out.append("</span> <a href=\"");
    out.append(html_attr(e.url.as_str()).as_str());
    out.append("\">");
    out.append(html(e.title.as_str()).as_str());
    out.append("</a>");
    out.append(status_badge(e.status.as_str()).as_str());
    out.append("</li>\n");
    assert(out@ =~= old(out)@ + item_text(e@));
}

fn push_thread_open(out: &mut String, first: &Event)
    ensures
        final(out)@ == old(out)@ + thread_open_text(first@),
{
    let occ = chars_of(first.occurred_at.as_str());
    let year = match byte_prefix_chars(&occ, 4) {
        Some(y) => string_of(&y),
        None => String::new(),
    };
    assert(year@ == year_text(first@));
    out.append("<details class=\"btc-thread\" open data-repo=\"");
    out.append(html_attr(first.repo.as_str()).as_str());
    out.append("\" data-type=\"");
    out.append(html_attr(first.event_type.as_str()).as_str());
    out.append("\" data-year=\"");
    out.append(html_attr(year.as_str()).as_str());
    out.append("\">\n");
    assert(out@ =~= old(out)@ + thread_open_text(first@));
}

fn push_thread_summary(out: &mut String, first: &Event, n: usize)
    ensures
        final(out)@ == old(out)@ + thread_summary_text(first@, n as nat),
{
    out.append("<summary><span class=\"btc-icon\">");
    out.append(icon(first.event_type.as_str()));
    out.append("</span><span><a href=\"");
    out.append(html_attr(first.thread_url.as_str()).as_str());
    out.append("\">");
    out.append(html(first.thread_title.as_str()).as_str());
    out.append("</a><small>");
    out.append(html(first.repo.as_str()).as_str());
    out.append(" \u{b7} ");
    out.append(dec_string(n as u64).as_str());
    out.append(" item");
    if n != 1 {
        out.append("s");
    }
    out.append("</small></span></summary>\n");
    assert(out@ =~= old(out)@ + thread_summary_text(first@, n as nat));
}

/// Appends the opening of a thread whose first event is `first` and which
/// has `n` events.
fn push_thread_head(out: &mut String, first: &Event, n: usize)
    ensures
        final(out)@ == old(out)@ + thread_head_text(first@, n as nat),
{
    push_thread_open(out, first);
    push_thread_summary(out, first, n);
    assert(out@ =~= old(out)@ + thread_head_text(first@, n as nat));
}

/// Appends a thread whose events are `g`, the first one first.
fn push_thread(out: &mut String, g: &Vec<Event>)
    requires
        g@.len() > 0,
    ensures
        final(out)@ == old(out)@ + thread_text(event_views(g@)),
{
    let ghost gv = event_views(g@);
    assert(gv[0] == g@[0]@);
    push_thread_head(out, &g[0], g.len());
    out.append("<ol>\n");
    let ghost head = out@;
    assert(gv.take(0) =~= Seq::<EventV>::empty());
    assert(head + items_text(gv.take(0)) =~= head);
    let mut i: usize = 0;
    while i < g.len()
        invariant
            i <= g@.len(),
            gv == event_views(g@),
            out@ == head + items_text(gv.take(i as int)),
        decreases g@.len() - i,
    {
        assert(gv.take(i + 1).drop_last() =~= gv.take(i as int));
        assert(gv.take(i + 1).last() == g@[i as int]@);
        push_item(out, &g[i]);
        assert(out@ =~= head + items_text(gv.take(i + 1)));
        i += 1;
    }
    assert(gv.take(i as int) =~= gv);
    out.append("</ol></details>\n");
    assert(out@ =~= old(out)@ + thread_text(gv));
}

/// The site's header, above the page's content.
pub const SITE_HEADER: &'static str = "<header><div class=\"markdown-heading\"><h1 class=\"heading-element\">trev's website</h1></div><p><a href=\"/index.html\">Home</a><a href=\"/posts/index.html\">Posts</a><a href=\"/about/index.html\">About</a></p></header>";

/// The end of the page's content and the site's footer.
pub const SITE_FOOTER: &'static str = "</div></main><footer><p>Trevor Arjeski - <a href=\"https://github.com/trevarj\">git</a> <a href=\"/rss.xml\">rss</a></p></footer>";

/// The page's head, the site's header and the page's title.
pub open spec fn page_head_text(cfg: ConfigV) -> Seq<char> {
    "<!DOCTYPE html>\n"@ + "<html lang=\"en\"><head><meta charset=\"UTF-8\">\n"@
        + "<meta name=\"viewport\" content=\"width=device-width, initial-scale=1\">\n"@
        + "<link rel=\"shortcut icon\" type=\"image/png\" href=\"/favicon.png\">\n"@
        + "<link rel=\"stylesheet\" href=\"/static/style.css\">\n"@
        + "<link rel=\"stylesheet\" href=\""@ + html_attr_text(cfg.base_path) + "btc_foss.css\">\n"@
        + "<title>"@ + html_text(cfg.title) + "</title></head><body>\n"@ + SITE_HEADER@ + "\n"@
        + "<main class=\"btc-page\">\n"@ + "<h1>"@ + html_text(cfg.title) + "</h1>\n"@
}

/// The line that names the user, the feed's time and the feed's file.
pub open spec fn intro_text(cfg: ConfigV, f: FeedV) -> Seq<char> {
    "<p class=\"btc-muted\">Public GitHub activity for <a href=\"https://github.com/"@ + html_attr_text(
        f.username,
    ) + "\">"@ + html_attr_text(f.username) + "</a>. Updated <time datetime=\""@ + html_attr_text(
        f.generated_at,
    ) + "\">"@ + html_attr_text(f.generated_at) + "</time>. <a href=\""@ + html_attr_text(cfg.base_path)
        + "feed.json\">feed.json</a></p>\n"@
}

/// The summary: the number of events, of repositories, and of each kind.
pub open spec fn stats_text(es: Seq<EventV>, repos: Seq<Seq<char>>, types: Seq<Seq<char>>) -> Seq<char> {
    "<section class=\"btc-stats\" aria-label=\"Contribution summary\">\n"@ + stat_text("Events"@, es.len())
        + stat_text("Repos"@, repos.len()) + type_stats_text(es, types) + "</section>\n"@
}

/// The filters by repository, kind and year, and the link that resets them.
pub open spec fn filters_text(cfg: ConfigV, repos: Seq<Seq<char>>, types: Seq<Seq<char>>, years: Seq<Seq<char>>) -> Seq<char> {
    "<form class=\"btc-filters\" id=\"btc-filters\">\n"@ + select_text("repo"@, "Repository"@, repos)
        + select_text("type"@, "Type"@, types) + select_text("year"@, "Year"@, years)
        + "<a class=\"btc-reset\" href=\""@ + html_attr_text(cfg.base_path) + "\">Reset</a></form>\n"@
}

/// The timeline: the threads of the events in timeline order.
pub open spec fn timeline_text(es: Seq<EventV>) -> Seq<char> {
    "<div class=\"btc-timeline\" id=\"btc-timeline\">\n"@ + threads_text(es, thread_order(es))
}

/// The footer and the page's script.
pub open spec fn page_foot_text(cfg: ConfigV) -> Seq<char> {
    SITE_FOOTER@ + "\n"@ + "<script defer src=\""@ + html_attr_text(cfg.base_path)
        + "btc_foss.js\"></script>\n"@ + "</body></html>\n"@
}

/// The page for a feed: repositories and kinds in increasing order, years
/// in decreasing order.
pub open spec fn page_text(cfg: ConfigV, f: FeedV) -> Seq<char> {
    let es = f.events;
    let repos = in_order(repos_of(es));
    let types = in_order(types_of(es));
    page_head_text(cfg) + intro_text(cfg, f) + stats_text(es, repos, types) + filters_text(
        cfg,
        repos,
        types,
        in_order(years_of(es)).reverse(),
    ) + timeline_text(es) + page_foot_text(cfg)
}

fn push_page_head(out: &mut String, config: &Config)
    ensures
        final(out)@ == old(out)@ + page_head_text(config@),
{
    let ghost start = out@;
    out.append("<!DOCTYPE html>\n");
    out.append("<html lang=\"en\"><head><meta charset=\"UTF-8\">\n");
    out.append("<meta name=\"viewport\" content=\"width=device-width, initial-scale=1\">\n");
    out.append("<link rel=\"shortcut icon\" type=\"image/png\" href=\"/favicon.png\">\n");
    out.append("<link rel=\"stylesheet\" href=\"/static/style.css\">\n");
    out.append("<link rel=\"stylesheet\" href=\"");
    out.append(html_attr(config.base_path.as_str()).as_str());
    out.append("btc_foss.css\">\n");
    out.append("<title>");
    out.append(html(config.title.as_str()).as_str());
    out.append("</title></head><body>\n");
    out.append(SITE_HEADER);
    out.append("\n");
    out.append("<main class=\"btc-page\">\n");
    out.append("<h1>");
    out.append(html(config.title.as_str()).as_str());
    out.append("</h1>\n");
    assert(out@ =~= start + page_head_text(config@));
}

fn push_intro(out: &mut String, config: &Config, feed: &Feed)
    ensures
        final(out)@ == old(out)@ + intro_text(config@, feed@),
{
    let user = html_attr(feed.username.as_str());
    let at = html_attr(feed.generated_at.as_str());
    out.append("<p class=\"btc-muted\">Public GitHub activity for <a href=\"https://github.com/");
    out.append(user.as_str());
    out.append("\">");
    out.append(user.as_str());
    out.append("</a>. Updated <time datetime=\"");
    out.append(at.as_str());
    out.append("\">");
    out.append(at.as_str());
    out.append("</time>. <a href=\"");
    out.append(html_attr(config.base_path.as_str()).as_str());
    out.append("feed.json\">feed.json</a></p>\n");
    assert(out@ =~= old(out)@ + intro_text(config@, feed@));
}

fn push_stats(out: &mut String, es: &Vec<Event>, repos: &Vec<String>, types: &Vec<String>)
    ensures
        final(out)@ == old(out)@ + stats_text(event_views(es@), string_views(repos@), string_views(types@)),
{
    let ghost ev = event_views(es@);
    let ghost tv = string_views(types@);
    out.append("<section class=\"btc-stats\" aria-label=\"Contribution summary\">\n");
    stat(out, "Events", es.len());
    stat(out, "Repos", repos.len());
    let ghost head = out@;
    assert(tv.take(0) =~= Seq::<Seq<char>>::empty());
    assert(head + type_stats_text(ev, tv.take(0)) =~= head);
    let mut k: usize = 0;
    while k < types.len()
        invariant
            k <= types@.len(),
            ev == event_views(es@),
            tv == string_views(types@),
            out@ == head + type_stats_text(ev, tv.take(k as int)),
        decreases types@.len() - k,
    {
        assert(tv.take(k + 1).drop_last() =~= tv.take(k as int));
        assert(tv.take(k + 1).last() == types@[k as int]@);
        let n = type_count_exec(es, &types[k]);
        stat(out, types[k].as_str(), n);
        assert(out@ =~= head + type_stats_text(ev, tv.take(k + 1)));
        k += 1;
    }
    assert(tv.take(k as int) =~= tv);
    out.append("</section>\n");
    assert(ev.len() == es@.len());
    assert(out@ =~= old(out)@ + stats_text(ev, string_views(repos@), tv));
}

fn push_filters(out: &mut String, config: &Config, repos: &Vec<String>, types: &Vec<String>, years: &Vec<String>)
    ensures
        final(out)@ == old(out)@ + filters_text(
            config@,
            string_views(repos@),
            string_views(types@),
            string_views(years@),
        ),
{
    out.append("<form class=\"btc-filters\" id=\"btc-filters\">\n");
    select(out, "repo", "Repository", repos.as_slice());
    select(out, "type", "Type", types.as_slice());
    select(out, "year", "Year", years.as_slice());
    out.append("<a class=\"btc-reset\" href=\"");
    out.append(html_attr(config.base_path.as_str()).as_str());
    out.append("\">Reset</a></form>\n");
    assert(out@ =~= old(out)@ + filters_text(
        config@,
        string_views(repos@),
        string_views(types@),
        string_views(years@),
    ));
}

fn push_timeline(out: &mut String, es: &Vec<Event>)
    ensures
        final(out)@ == old(out)@ + timeline_text(event_views(es@)),
{
    let ghost ev = event_views(es@);
    out.append("<div class=\"btc-timeline\" id=\"btc-timeline\">\n");
    let threads = thread_order_exec(es);
    let ghost tv = string_views(threads@);
    let ghost head = out@;
    assert(tv.to_set() == thread_ids(ev));
    assert(tv.take(0) =~= Seq::<Seq<char>>::empty());
    assert(head + threads_text(ev, tv.take(0)) =~= head);
    let mut k: usize = 0;
    while k < threads.len()
        invariant
            k <= threads@.len(),
            ev == event_views(es@),
            tv == string_views(threads@),
            tv.to_set() == thread_ids(ev),
            out@ == head + threads_text(ev, tv.take(k as int)),
        decreases threads@.len() - k,
    {
        assert(tv.take(k + 1).drop_last() =~= tv.take(k as int));
        assert(tv.take(k + 1).last() == threads@[k as int]@);
        assert(tv.to_set().contains(tv[k as int]));
        proof {
            lemma_thread_nonempty(ev, tv[k as int]);
        }
        let g = thread_group(es, &threads[k]);
        push_thread(out, &g);
        assert(out@ =~= head + threads_text(ev, tv.take(k + 1)));
        k += 1;
    }
    assert(tv.take(k as int) =~= tv);
    assert(out@ =~= old(out)@ + timeline_text(ev));
}

fn push_page_foot(out: &mut String, config: &Config)
    ensures
        final(out)@ == old(out)@ + page_foot_text(config@),
{
    out.append(SITE_FOOTER);
    out.append("\n");
    out.append("<script defer src=\"");
    out.append(html_attr(config.base_path.as_str()).as_str());
    out.append("btc_foss.js\"></script>\n");
    out.append("</body></html>\n");
    assert(out@ =~= old(out)@ + page_foot_text(config@));
}

/// The static page for `feed`: a summary with the number of events, of
/// repositories and of each kind; filters by repository, kind and year; and
/// the events grouped by thread, threads with a later first event first.
pub fn render_html(config: &Config, feed: &Feed) -> (r: String)
    ensures
        r@ == page_text(config@, feed@),
{
    let (repos, types, years) = feed_sets(&feed.events);
    let mut years_desc: Vec<String> = Vec::new();
    let ghost yv = string_views(years@);
    let mut k: usize = years.len();
    assert(string_views(years_desc@) =~= yv.skip(k as int).reverse());
    while k > 0
        invariant
            k <= years@.len(),
            yv == string_views(years@),
            string_views(years_desc@) == yv.skip(k as int).reverse(),
        decreases k,
    {
        k -= 1;
        let y = years[k].clone();
        assert(string_views(years_desc@.push(y)) =~= string_views(years_desc@).push(years@[k as int]@));
        years_desc.push(y);
        assert(yv.skip(k as int).reverse() =~= yv.skip(k + 1).reverse().push(yv[k as int]));
    }
    assert(yv.skip(0) =~= yv);
    let mut out = String::new();
    push_page_head(&mut out, config);
    push_intro(&mut out, config, feed);
    push_stats(&mut out, &feed.events, &repos, &types);
    push_filters(&mut out, config, &repos, &types, &years_desc);
    push_timeline(&mut out, &feed.events);
    push_page_foot(&mut out, config);
    assert(out@ =~= page_text(config@, feed@));
    out
}

/// The page's style sheet.
pub const PAGE_CSS: &'static str = r#".btc-page { padding-top: var(--space-lg); }
.btc-muted { color: var(--text-light); font-size: 0.92rem; }
.btc-stats { display: grid; grid-template-columns: repeat(auto-fit, minmax(7rem, 1fr)); gap: 0.5rem; padding: 0; border: 0; background: transparent; box-shadow: none; }
.btc-stats div { border: 1px solid var(--border); border-radius: var(--standard-border-radius); padding: 0.45rem 0.55rem; background: var(--panel-bg); }
.btc-stats strong { display: block; color: var(--accent-hover); font-size: 1.2rem; line-height: 1; }
.btc-stats span { color: var(--text-light); font-size: 0.78rem; text-transform: uppercase; }
.btc-filters { display: grid; grid-template-columns: repeat(3, minmax(0, 1fr)) auto; gap: 0.6rem; align-items: end; margin: var(--space-lg) 0; }
.btc-filters label { font-size: 0.78rem; text-transform: uppercase; }
.btc-filters select { width: 100%; margin: 0.2rem 0 0; }
.btc-reset { align-self: center; white-space: nowrap; }
.btc-timeline { position: relative; }
.btc-thread { margin-bottom: 0.65rem; }
.btc-thread[hidden] { display: none; }
.btc-thread summary { display: grid; grid-template-columns: 1.8rem 1fr; gap: 0.45rem; align-items: start; word-break: normal; }
.btc-thread summary small { display: block; margin-top: 0.12rem; color: var(--text-light); font-weight: normal; }
.btc-icon { display: inline-grid; place-items: center; width: 1.35rem; height: 1.35rem; border: 1px solid var(--border-soft); border-radius: 50%; color: var(--accent-hover); }
.btc-thread ol { margin: 0.45rem 0 0 1.75rem; padding-left: 1rem; }
.btc-thread li { margin: 0.28rem 0; }
.btc-thread time, .btc-kind, .btc-status { color: var(--text-light); font-size: 0.78rem; }
.btc-kind, .btc-status { border: 1px solid var(--border-soft); border-radius: var(--standard-border-radius); padding: 0.03rem 0.28rem; }
@media only screen and (max-width: 720px) {
  .btc-filters { grid-template-columns: 1fr; }
  .btc-thread summary { grid-template-columns: 1.5rem 1fr; }
}
"#;

/// The page's script: it hides the threads that the chosen filters leave out.
pub const PAGE_JS: &'static str = r#"(function () {
  const form = document.getElementById("btc-filters");
  const items = Array.from(document.querySelectorAll(".btc-thread"));
  if (!form) return;
  function apply() {
    const data = new FormData(form);
    const repo = data.get("repo");
    const type = data.get("type");
    const year = data.get("year");
    for (const item of items) {
      const ok = (!repo || item.dataset.repo === repo) &&
        (!type || item.dataset.type === type || item.querySelector(`[data-type="${CSS.escape(type)}"]`)) &&
        (!year || item.dataset.year === year);
      item.hidden = !ok;
    }
  }
  form.addEventListener("change", apply);
})();
"#;

/// The page's style sheet.
pub fn render_css() -> (r: &'static str)
    ensures
        r@ == PAGE_CSS@,
{
    PAGE_CSS
}

/// The page's script.
pub fn render_js() -> (r: &'static str)
    ensures
        r@ == PAGE_JS@,
{
    PAGE_JS
}

} // verus!
