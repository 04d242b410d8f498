//! Contribution events and the feed that holds them: merging by id, the
//! order of the timeline, and the feed's JSON text.
use vstd::prelude::*;
use crate::escape::{json_escape_chars, json_escaped};
use crate::sorted::{lemma_sorted_by_unique, sorted_by};
use crate::json::{json_get, json_views, parse_json, parse_json_text, Json, JsonV};
use crate::text::{
    chars_of, lemma_text_lt_asymmetric, lemma_text_lt_irreflexive, lemma_text_lt_total,
    lemma_text_lt_transitive, push_chars, push_str, string_of, string_order, text_lt,
    TextOrder,
};

verus! {

/// One contribution: a pull request, issue, commit group, review or comment.
#[derive(Clone, Debug, PartialEq, Eq)]
pub struct Event {
    pub id: String,
    pub event_type: String,
    pub repo: String,
    pub title: String,
    pub url: String,
    pub occurred_at: String,
    pub thread_id: String,
    pub thread_title: String,
    pub thread_url: String,
    pub status: String,
}

/// The feed written to `feed.json`.
#[derive(Clone, Debug)]
pub struct Feed {
    pub generated_at: String,
    pub username: String,
    pub events: Vec<Event>,
}

/// The text of each field of an event.
pub struct EventV {
    pub id: Seq<char>,
    pub event_type: Seq<char>,
    pub repo: Seq<char>,
    pub title: Seq<char>,
    pub url: Seq<char>,
    pub occurred_at: Seq<char>,
    pub thread_id: Seq<char>,
    pub thread_title: Seq<char>,
    pub thread_url: Seq<char>,
    pub status: Seq<char>,
}

/// The content of a feed.
pub struct FeedV {
    pub generated_at: Seq<char>,
    pub username: Seq<char>,
    pub events: Seq<EventV>,
}

impl Event {
    pub open spec fn view(&self) -> EventV {
        EventV {
            id: self.id@,
            event_type: self.event_type@,
            repo: self.repo@,
            title: self.title@,
            url: self.url@,
            occurred_at: self.occurred_at@,
            thread_id: self.thread_id@,
            thread_title: self.thread_title@,
            thread_url: self.thread_url@,
            status: self.status@,
        }
    }

    /// A copy of this event.
    pub fn duplicate(&self) -> (r: Event)
        ensures
            r == *self,
    {
        Event {
            id: self.id.clone(),
            event_type: self.event_type.clone(),
            repo: self.repo.clone(),
            title: self.title.clone(),
            url: self.url.clone(),
            occurred_at: self.occurred_at.clone(),
            thread_id: self.thread_id.clone(),
            thread_title: self.thread_title.clone(),
            thread_url: self.thread_url.clone(),
            status: self.status.clone(),
        }
    }
}

/// The views of a sequence of events.
pub open spec fn event_views(es: Seq<Event>) -> Seq<EventV> {
    es.map_values(|e: Event| e@)
}

impl Feed {
    pub open spec fn view(&self) -> FeedV {
        FeedV {
            generated_at: self.generated_at@,
            username: self.username@,
            events: event_views(self.events@),
        }
    }
}

/// The last event of `s` with the given id.
pub open spec fn last_with_id(s: Seq<Event>, id: Seq<char>) -> Option<Event>
    decreases s.len(),
{
    if s.len() == 0 {
        None
    } else if s.last().id@ == id {
        Some(s.last())
    } else {
        last_with_id(s.drop_last(), id)
    }
}

/// Whether some event of `s` has the given id.
pub open spec fn has_id(s: Seq<Event>, id: Seq<char>) -> bool {
    exists|i: int| 0 <= i < s.len() && (#[trigger] s[i]).id@ == id
}

/// The ids increase strictly along `s`.
pub open spec fn ids_increasing(s: Seq<Event>) -> bool {
    forall|i: int, j: int| 0 <= i < j < s.len() ==> text_lt(#[trigger] s[i].id@, #[trigger] s[j].id@)
}

/// `r` is `combined` keyed by id: one event per id of `combined`, the last
/// one given for it, in increasing order of id.
pub open spec fn merged_by_id(combined: Seq<Event>, r: Seq<Event>) -> bool {
    &&& ids_increasing(r)
    &&& forall|i: int| 0 <= i < r.len() ==> last_with_id(combined, (#[trigger] r[i]).id@) == Some(r[i])
    &&& forall|id: Seq<char>| has_id(combined, id) ==> #[trigger] has_id(r, id)
}

proof fn lemma_last_with_id_some(s: Seq<Event>, id: Seq<char>)
    ensures
        last_with_id(s, id) is Some == has_id(s, id),
        last_with_id(s, id) matches Some(e) ==> e.id@ == id,
    decreases s.len(),
{
    if s.len() > 0 {
        lemma_last_with_id_some(s.drop_last(), id);
        if s.last().id@ != id {
            if has_id(s, id) {
                let i = choose|i: int| 0 <= i < s.len() && (#[trigger] s[i]).id@ == id;
                assert(s.drop_last()[i] == s[i]);
            }
            if has_id(s.drop_last(), id) {
                let i = choose|i: int| 0 <= i < s.drop_last().len() && (#[trigger] s.drop_last()[i]).id@ == id;
                assert(s[i] == s.drop_last()[i]);
            }
        } else {
            assert(s[s.len() - 1].id@ == id);
        }
    }
}

/// When no event after position `k` has the id, the last one with it lies
/// in the first `k` events.
proof fn lemma_last_with_id_prefix(s: Seq<Event>, k: int, id: Seq<char>)
    requires
        0 <= k <= s.len(),
        !has_id(s.skip(k), id),
    ensures
        last_with_id(s, id) == last_with_id(s.take(k), id),
    decreases s.len() - k,
{
    if k < s.len() {
        assert(s.skip(k)[s.len() - 1 - k] == s.last());
        assert(s.drop_last().skip(k) =~= s.skip(k).drop_last());
        assert forall|i: int| 0 <= i < s.drop_last().skip(k).len() implies (#[trigger] s.drop_last().skip(k)[i]).id@ != id by {
            assert(s.skip(k)[i] == s.drop_last().skip(k)[i]);
        }
        lemma_last_with_id_prefix(s.drop_last(), k, id);
        assert(s.drop_last().take(k) =~= s.take(k));
    } else {
        assert(s.take(k) =~= s);
    }
}

/// The last event with an id in `s + t` is the last one in `t`, if `t` has
/// one, else the last one in `s`.
proof fn lemma_last_with_id_concat(s: Seq<Event>, t: Seq<Event>, id: Seq<char>)
    ensures
        last_with_id(s + t, id) == (match last_with_id(t, id) {
            Some(e) => Some(e),
            None => last_with_id(s, id),
        }),
    decreases t.len(),
{
    if t.len() == 0 {
        assert(s + t =~= s);
    } else {
        assert((s + t).drop_last() =~= s + t.drop_last());
        assert((s + t).last() == t.last());
        lemma_last_with_id_concat(s, t.drop_last(), id);
    }
}

/// The last event with an id is one of the events.
proof fn lemma_last_with_id_member(s: Seq<Event>, id: Seq<char>)
    ensures
        last_with_id(s, id) matches Some(e) ==> exists|k: int| 0 <= k < s.len() && #[trigger] s[k] == e,
    decreases s.len(),
{
    if s.len() > 0 {
        lemma_last_with_id_member(s.drop_last(), id);
        if s.last().id@ == id {
            assert(s[s.len() - 1] == s.last());
        } else if let Some(e) = last_with_id(s.drop_last(), id) {
            let k = choose|k: int| 0 <= k < s.drop_last().len() && #[trigger] s.drop_last()[k] == e;
            assert(s[k] == e);
        }
    }
}

/// Merging `a` with `b`, then the result with `c`, is merging `a` with
/// `b` and `c` at once: for each id, the last event given for it.
pub proof fn lemma_merge_twice(a: Seq<Event>, b: Seq<Event>, c: Seq<Event>, m1: Seq<Event>, m2: Seq<Event>)
    requires
        merged_by_id(a + b, m1),
        merged_by_id(m1 + c, m2),
    ensures
        merged_by_id(a + b + c, m2),
{
    let ab = a + b;
    assert forall|i: int| 0 <= i < m2.len() implies last_with_id(a + b + c, (#[trigger] m2[i]).id@) == Some(m2[i]) by {
        let id = m2[i].id@;
        lemma_last_with_id_concat(m1, c, id);
        lemma_last_with_id_concat(ab, c, id);
        if last_with_id(c, id) is None {
            lemma_last_with_id_some(m1, id);
            lemma_last_with_id_member(m1, id);
            let k = choose|k: int| 0 <= k < m1.len() && #[trigger] m1[k] == m2[i];
            assert(last_with_id(ab, m1[k].id@) == Some(m1[k]));
        }
    }
    assert forall|id: Seq<char>| has_id(a + b + c, id) implies #[trigger] has_id(m2, id) by {
        let j = choose|j: int| 0 <= j < (a + b + c).len() && (#[trigger] (a + b + c)[j]).id@ == id;
        if j < ab.len() {
            assert((a + b + c)[j] == ab[j]);
            assert(has_id(ab, id));
            assert(has_id(m1, id));
            let k = choose|k: int| 0 <= k < m1.len() && (#[trigger] m1[k]).id@ == id;
            assert((m1 + c)[k] == m1[k]);
            assert(has_id(m1 + c, id));
        } else {
            assert((a + b + c)[j] == c[j - ab.len()]);
            assert((m1 + c)[m1.len() + j - ab.len()] == c[j - ab.len()]);
            assert(has_id(m1 + c, id));
        }
    }
}

/// The outcome of a merge is determined: two sequences that both hold
/// `combined` keyed by id are equal.
pub proof fn lemma_merged_unique(combined: Seq<Event>, r1: Seq<Event>, r2: Seq<Event>)
    requires
        merged_by_id(combined, r1),
        merged_by_id(combined, r2),
    ensures
        r1 == r2,
{
    let lt = |a: Event, b: Event| text_lt(a.id@, b.id@);
    assert forall|x: Event| !#[trigger] lt(x, x) by {
        lemma_text_lt_irreflexive(x.id@);
    }
    assert forall|x: Event, y: Event, z: Event| #[trigger] lt(x, y) && #[trigger] lt(y, z) implies lt(x, z) by {
        lemma_text_lt_transitive(x.id@, y.id@, z.id@);
    }
    assert(sorted_by(r1, lt));
    assert(sorted_by(r2, lt));
    assert forall|e: Event| r1.to_set().contains(e) implies r2.to_set().contains(e) by {
        let i = choose|i: int| 0 <= i < r1.len() && r1[i] == e;
        assert(last_with_id(combined, r1[i].id@) == Some(r1[i]));
        lemma_last_with_id_some(combined, e.id@);
        assert(has_id(r2, e.id@));
        let j = choose|j: int| 0 <= j < r2.len() && (#[trigger] r2[j]).id@ == e.id@;
        assert(last_with_id(combined, r2[j].id@) == Some(r2[j]));
        assert(r2[j] == e);
    }
    assert forall|e: Event| r2.to_set().contains(e) implies r1.to_set().contains(e) by {
        let i = choose|i: int| 0 <= i < r2.len() && r2[i] == e;
        assert(last_with_id(combined, r2[i].id@) == Some(r2[i]));
        lemma_last_with_id_some(combined, e.id@);
        assert(has_id(r1, e.id@));
        let j = choose|j: int| 0 <= j < r1.len() && (#[trigger] r1[j]).id@ == e.id@;
        assert(last_with_id(combined, r1[j].id@) == Some(r1[j]));
        assert(r1[j] == e);
    }
    assert(r1.to_set() =~= r2.to_set());
    lemma_sorted_by_unique(r1, r2, lt);
}

/// Merges `incoming` into `existing` by id: an incoming event replaces the
/// existing one with its id, and the result holds one event per id, in
/// increasing order of id.
#[verifier::rlimit(40)]
pub fn merge_events(existing: &mut Vec<Event>, incoming: Vec<Event>)
    ensures
        merged_by_id(old(existing)@ + incoming@, final(existing)@),
{
    let ghost combined = old(existing)@ + incoming@;
    let mut first: Vec<Event> = Vec::new();
    std::mem::swap(existing, &mut first);
    let mut second = incoming;
    let mut out: Vec<Event> = Vec::new();
    assert(combined.skip(combined.len() as int) =~= Seq::<Event>::empty());
    // take the events from the back; the first one met for an id is the last one given
    while first.len() > 0 || second.len() > 0
        invariant
            combined == old(existing)@ + incoming@,
            first@ == old(existing)@.take(first@.len() as int),
            first@.len() <= old(existing)@.len(),
            second@.len() == 0 || first@.len() == old(existing)@.len(),
            second@ == incoming@.take(second@.len() as int),
            second@.len() <= incoming@.len(),
            ids_increasing(out@),
            forall|i: int| 0 <= i < out@.len() ==> last_with_id(combined, (#[trigger] out@[i]).id@) == Some(out@[i]),
            forall|id: Seq<char>| has_id(out@, id) == #[trigger] has_id(combined.skip(first@.len() + second@.len() as int), id),
        decreases first@.len() + second@.len(),
    {
        let ghost k: int = (first@.len() + second@.len()) as int;
        let e = if second.len() > 0 {
            second.pop().unwrap()
        } else {
            first.pop().unwrap()
        };
        proof {
            assert(forall|id: Seq<char>| has_id(out@, id) == #[trigger] has_id(combined.skip(k), id));
            assert(combined[k - 1] == e);
            assert(combined.take(k).last() == e);
            assert(combined.skip(k - 1) =~= seq![e] + combined.skip(k));
        }
        let mut pos: usize = 0;
        let mut found = false;
        let mut stop = false;
        while pos < out.len() && !stop
            invariant
                pos <= out@.len(),
                ids_increasing(out@),
                forall|m: int| 0 <= m < pos ==> text_lt(#[trigger] out@[m].id@, e.id@),
                stop ==> pos < out@.len() && (found ==> out@[pos as int].id@ == e.id@) && (!found
                    ==> text_lt(e.id@, out@[pos as int].id@)),
                !stop ==> !found,
            decreases out@.len() - pos, if stop { 0int } else { 1int },
        {
            let o = string_order(&out[pos].id, &e.id);
            if o == TextOrder::Equal {
                found = true;
                stop = true;
            } else if o == TextOrder::Greater {
                stop = true;
            } else {
                pos += 1;
            }
        }
        proof {
            lemma_text_lt_irreflexive(e.id@);
            if !found {
                assert forall|m: int| pos <= m < out@.len() implies text_lt(e.id@, #[trigger] out@[m].id@) by {
                    if m > pos {
                        lemma_text_lt_transitive(e.id@, out@[pos as int].id@, out@[m].id@);
                    }
                }
                assert forall|m: int| 0 <= m < out@.len() implies (#[trigger] out@[m]).id@ != e.id@ by {
                    if m < pos {
                        lemma_text_lt_asymmetric(out@[m].id@, e.id@);
                    }
                }
            }
        }
        if found {
            proof {
                assert(has_id(out@, e.id@));
                assert forall|id: Seq<char>| has_id(out@, id) == #[trigger] has_id(combined.skip(k - 1), id) by {
                    if has_id(combined.skip(k - 1), id) && id != e.id@ {
                        let i = choose|i: int| 0 <= i < combined.skip(k - 1).len() && (#[trigger] combined.skip(k - 1)[i]).id@ == id;
                        assert(combined.skip(k)[i - 1] == combined.skip(k - 1)[i]);
                    }
                    if has_id(combined.skip(k), id) {
                        let i = choose|i: int| 0 <= i < combined.skip(k).len() && (#[trigger] combined.skip(k)[i]).id@ == id;
                        assert(combined.skip(k - 1)[i + 1] == combined.skip(k)[i]);
                    }
                    if id == e.id@ {
                        assert(combined.skip(k - 1)[0] == e);
                    }
                }
            }
        } else {
            proof {
                assert(!has_id(combined.skip(k), e.id@));
                lemma_last_with_id_prefix(combined, k, e.id@);
                assert(last_with_id(combined.take(k), e.id@) == Some(e));
            }
            let ghost before = out@;
            out.insert(pos, e);
            proof {
                let nv = out@;
                assert(nv =~= before.insert(pos as int, e));
                assert forall|a: int, b: int| 0 <= a < b < nv.len() implies text_lt(
                    #[trigger] nv[a].id@,
                    #[trigger] nv[b].id@,
                ) by {
                    if a < pos && b < pos {
                    } else if a < pos && b == pos {
                    } else if a < pos && b > pos {
                        assert(nv[b] == before[b - 1]);
                    } else if a == pos {
                        assert(nv[b] == before[b - 1]);
                    } else {
                        assert(nv[a] == before[a - 1]);
                        assert(nv[b] == before[b - 1]);
                    }
                }
                assert forall|i: int| 0 <= i < nv.len() implies last_with_id(combined, (#[trigger] nv[i]).id@) == Some(nv[i]) by {
                    if i < pos {
                        assert(nv[i] == before[i]);
                    } else if i > pos {
                        assert(nv[i] == before[i - 1]);
                    }
                }
                assert forall|id: Seq<char>| has_id(nv, id) == #[trigger] has_id(combined.skip(k - 1), id) by {
                    if has_id(nv, id) {
                        let i = choose|i: int| 0 <= i < nv.len() && (#[trigger] nv[i]).id@ == id;
                        if i < pos {
                            assert(before[i] == nv[i]);
                        } else if i > pos {
                            assert(before[i - 1] == nv[i]);
                        }
                        if i != pos {
                            assert(has_id(before, id));
                            assert(has_id(combined.skip(k), id));
                            let j = choose|j: int| 0 <= j < combined.skip(k).len() && (#[trigger] combined.skip(k)[j]).id@ == id;
                            assert(combined.skip(k - 1)[j + 1] == combined.skip(k)[j]);
                        } else {
                            assert(combined.skip(k - 1)[0] == e);
                        }
                    }
                    if has_id(combined.skip(k - 1), id) {
                        let i = choose|i: int| 0 <= i < combined.skip(k - 1).len() && (#[trigger] combined.skip(k - 1)[i]).id@ == id;
                        if i == 0 {
                            assert(nv[pos as int] == e);
                        } else {
                            assert(combined.skip(k)[i - 1] == combined.skip(k - 1)[i]);
                            assert(has_id(combined.skip(k), id));
                            assert(has_id(before, id));
                            let j = choose|j: int| 0 <= j < before.len() && (#[trigger] before[j]).id@ == id;
                            if j < pos {
                                assert(nv[j] == before[j]);
                            } else {
                                assert(nv[j + 1] == before[j]);
                            }
                        }
                    }
                }
            }
        }
        proof {
            assert(first@ == old(existing)@.take(first@.len() as int));
            assert(second@ == incoming@.take(second@.len() as int));
        }
    }
    assert(combined.skip(0) =~= combined);
    assert forall|id: Seq<char>| has_id(combined, id) implies #[trigger] has_id(out@, id) by {
        assert(has_id(combined.skip(0), id));
        assert(has_id(combined.skip(first@.len() + second@.len() as int), id));
    }
    *existing = out;
}

/// Whether `a` comes before `b` on the timeline: later first, then by id.
pub open spec fn timeline_before(a: Event, b: Event) -> bool {
    text_lt(b.occurred_at@, a.occurred_at@) || (a.occurred_at@ == b.occurred_at@ && text_lt(
        a.id@,
        b.id@,
    ))
}

/// No event of `s` comes on the timeline before an earlier one.
pub open spec fn timeline_sorted(s: Seq<Event>) -> bool {
    forall|i: int, j: int| 0 <= i < j < s.len() ==> !timeline_before(#[trigger] s[j], #[trigger] s[i])
}

proof fn lemma_timeline_before_transitive(a: Event, b: Event, c: Event)
    requires
        timeline_before(a, b),
        timeline_before(b, c),
    ensures
        timeline_before(a, c),
{
    if text_lt(b.occurred_at@, a.occurred_at@) {
        if text_lt(c.occurred_at@, b.occurred_at@) {
            lemma_text_lt_transitive(c.occurred_at@, b.occurred_at@, a.occurred_at@);
        }
    } else {
        if text_lt(c.occurred_at@, b.occurred_at@) {
        } else {
            lemma_text_lt_transitive(a.id@, b.id@, c.id@);
        }
    }
}

proof fn lemma_timeline_before_total(a: Event, b: Event)
    ensures
        timeline_before(a, b) || timeline_before(b, a) || (a.occurred_at@ == b.occurred_at@
            && a.id@ == b.id@),
{
    lemma_text_lt_total(a.occurred_at@, b.occurred_at@);
    lemma_text_lt_total(a.id@, b.id@);
}

proof fn lemma_timeline_before_asymmetric(a: Event, b: Event)
    requires
        timeline_before(a, b),
    ensures
        !timeline_before(b, a),
{
    if text_lt(b.occurred_at@, a.occurred_at@) {
        lemma_text_lt_asymmetric(b.occurred_at@, a.occurred_at@);
        lemma_text_lt_irreflexive(a.occurred_at@);
    } else {
        lemma_text_lt_asymmetric(a.id@, b.id@);
        lemma_text_lt_irreflexive(a.occurred_at@);
    }
}

/// Whether `a` comes before `b` on the timeline.
pub fn timeline_before_exec(a: &Event, b: &Event) -> (r: bool)
    ensures
        r == timeline_before(*a, *b),
{
    let o = string_order(&b.occurred_at, &a.occurred_at);
    if o == TextOrder::Less {
        true
    } else if o == TextOrder::Equal {
        string_order(&a.id, &b.id) == TextOrder::Less
    } else {
        proof {
            lemma_text_lt_asymmetric(a.occurred_at@, b.occurred_at@);
            lemma_text_lt_irreflexive(a.occurred_at@);
        }
        false
    }
}

/// Whether an event has the time and the id of `x`: the events the timeline
/// order does not tell apart from `x`.
pub open spec fn same_place(x: Event) -> spec_fn(Event) -> bool {
    |e: Event| e.occurred_at@ == x.occurred_at@ && e.id@ == x.id@
}

/// The events of `s` with the time and the id of `x`, in order.
pub open spec fn same_place_events(s: Seq<Event>, x: Event) -> Seq<Event> {
    s.filter(same_place(x))
}

/// An event that comes before another on the timeline differs from it in
/// time or id.
proof fn lemma_timeline_before_apart(a: Event, b: Event)
    requires
        timeline_before(a, b),
    ensures
        !(a.occurred_at@ == b.occurred_at@ && a.id@ == b.id@),
{
    lemma_text_lt_irreflexive(a.occurred_at@);
    lemma_text_lt_irreflexive(a.id@);
}

/// Filtering keeps nothing of a sequence none of whose elements passes.
proof fn lemma_filter_none<A>(s: Seq<A>, p: spec_fn(A) -> bool)
    requires
        forall|i: int| 0 <= i < s.len() ==> !p(#[trigger] s[i]),
    ensures
        s.filter(p) == Seq::<A>::empty(),
{
    broadcast use vstd::seq_lib::group_filter_ensures;

    if s.filter(p).len() > 0 {
        let e = s.filter(p)[0];
        assert(p(e));
        assert(s.filter(p).contains(e));
        s.lemma_filter_contains_rev(p, e);
        let k = choose|k: int| 0 <= k < s.len() && s[k] == e;
        assert(!p(s[k]));
    }
    assert(s.filter(p) =~= Seq::<A>::empty());
}

/// Inserting an element that does not pass leaves the filtered sequence
/// alone; inserting one that passes, after elements none of which passes,
/// puts it first.
proof fn lemma_filter_insert<A>(s: Seq<A>, pos: int, e: A, p: spec_fn(A) -> bool)
    requires
        0 <= pos <= s.len(),
        p(e) ==> forall|m: int| 0 <= m < pos ==> !p(#[trigger] s[m]),
    ensures
        s.insert(pos, e).filter(p) == (if p(e) {
            seq![e] + s.filter(p)
        } else {
            s.filter(p)
        }),
{
    let a = s.take(pos);
    let b = s.skip(pos);
    let one = seq![e];
    assert(s =~= a + b);
    assert(s.insert(pos, e) =~= a + (one + b));
    Seq::filter_distributes_over_add(a, b, p);
    Seq::filter_distributes_over_add(a, one + b, p);
    Seq::filter_distributes_over_add(one, b, p);
    lemma_filter_none(Seq::<A>::empty(), p);
    assert(one =~= Seq::<A>::empty().push(e));
    Seq::<A>::empty().lemma_filter_push(e, p);
    if p(e) {
        assert forall|i: int| 0 <= i < a.len() implies !p(#[trigger] a[i]) by {
            assert(a[i] == s[i]);
        }
        lemma_filter_none(a, p);
        assert(one.filter(p) =~= seq![e]);
        assert(s.insert(pos, e).filter(p) =~= seq![e] + s.filter(p));
    } else {
        assert(one.filter(p) =~= Seq::<A>::empty());
        assert(s.insert(pos, e).filter(p) =~= s.filter(p));
    }
}

/// Puts the events in timeline order: latest first, then by id.
pub fn sort_events(events: &mut Vec<Event>)
    ensures
        final(events)@.to_multiset() == old(events)@.to_multiset(),
        timeline_sorted(final(events)@),
        forall|x: Event| #[trigger] same_place_events(final(events)@, x) == same_place_events(old(events)@, x),
{
    broadcast use vstd::seq_lib::group_to_multiset_ensures;

    let mut rest: Vec<Event> = Vec::new();
    std::mem::swap(events, &mut rest);
    let ghost all = rest@;
    let mut out: Vec<Event> = Vec::new();
    assert(all.skip(all.len() as int) =~= Seq::<Event>::empty());
    assert(out@ =~= Seq::<Event>::empty());
    while rest.len() > 0
        invariant
            rest@ == all.take(rest@.len() as int),
            rest@.len() <= all.len(),
            timeline_sorted(out@),
            out@.to_multiset() == all.skip(rest@.len() as int).to_multiset(),
            forall|x: Event| #[trigger] same_place_events(out@, x) == same_place_events(all.skip(rest@.len() as int), x),
        decreases rest@.len(),
    {
        let ghost k = rest@.len() as int;
        let e = rest.pop().unwrap();
        proof {
            assert(all.take(k).last() == e);
            assert(all.skip(k - 1) =~= all.skip(k).insert(0, e));
        }
        let mut pos: usize = 0;
        while pos < out.len() && timeline_before_exec(&out[pos], &e)
            invariant
                pos <= out@.len(),
                forall|m: int| 0 <= m < pos ==> timeline_before(#[trigger] out@[m], e),
            decreases out@.len() - pos,
        {
            pos += 1;
        }
        let ghost before = out@;
        out.insert(pos, e);
        proof {
            let nv = out@;
            assert(nv =~= before.insert(pos as int, e));
            vstd::seq_lib::to_multiset_insert(before, pos as int, e);
            vstd::seq_lib::to_multiset_insert(all.skip(k), 0, e);
            assert(nv.to_multiset() == before.to_multiset().insert(e));
            assert(all.skip(k - 1).to_multiset() == all.skip(k).to_multiset().insert(e));
            assert forall|x: Event| #[trigger] same_place_events(nv, x) == same_place_events(all.skip(k - 1), x) by {
                let p = same_place(x);
                assert forall|m: int| 0 <= m < pos && p(e) implies !p(#[trigger] before[m]) by {
                    lemma_timeline_before_apart(before[m], e);
                }
                lemma_filter_insert(before, pos as int, e, p);
                lemma_filter_insert(all.skip(k), 0, e, p);
                assert(same_place_events(before, x) == same_place_events(all.skip(k), x));
                assert(nv == before.insert(pos as int, e));
                assert(all.skip(k - 1) == all.skip(k).insert(0, e));
            }
            assert forall|a: int, b: int| 0 <= a < b < nv.len() implies !timeline_before(
                #[trigger] nv[b],
                #[trigger] nv[a],
            ) by {
                if a < pos && b == pos {
                    lemma_timeline_before_asymmetric(before[a], e);
                } else if a == pos && b > pos {
                    // the element at `pos` (now at `b`) is not before `e`
                    assert(nv[b] == before[b - 1]);
                    if timeline_before(before[b - 1], e) {
                        if b - 1 > pos {
                            assert(!timeline_before(before[b - 1], before[pos as int]));
                            lemma_timeline_before_total(before[b - 1], before[pos as int]);
                            if timeline_before(before[pos as int], before[b - 1]) {
                                lemma_timeline_before_transitive(before[pos as int], before[b - 1], e);
                            } else {
                                assert(before[pos as int].occurred_at@ == before[b - 1].occurred_at@);
                            }
                        }
                    }
                } else if a < pos && b > pos {
                    assert(nv[b] == before[b - 1]);
                } else if a > pos {
                    assert(nv[a] == before[a - 1]);
                    assert(nv[b] == before[b - 1]);
                }
            }
        }
    }
    assert(all.skip(0) =~= all);
    *events = out;
}

/// A line break followed by `n` spaces.
pub open spec fn indent(n: nat) -> Seq<char> {
    seq!['\n'] + Seq::new(n, |i: int| ' ')
}

/// One member with a string value, as the feed writes it: on a new line
/// indented by `n`, the key in quotes, a colon and a space, the escaped value
/// in quotes.
pub open spec fn member_json(n: nat, key: Seq<char>, value: Seq<char>) -> Seq<char> {
    indent(n) + seq!['"'] + key + seq!['"', ':', ' ', '"'] + json_escaped(value) + seq!['"']
}

/// The keys of an event's members, in the order the feed writes them.
pub open spec fn event_keys() -> Seq<Seq<char>> {
    seq![
        "id"@,
        "event_type"@,
        "repo"@,
        "title"@,
        "url"@,
        "occurred_at"@,
        "thread_id"@,
        "thread_title"@,
        "thread_url"@,
        "status"@,
    ]
}

/// The values of an event's members, in the order of `event_keys`.
pub open spec fn event_values(e: EventV) -> Seq<Seq<char>> {
    seq![
        e.id,
        e.event_type,
        e.repo,
        e.title,
        e.url,
        e.occurred_at,
        e.thread_id,
        e.thread_title,
        e.thread_url,
        e.status,
    ]
}

/// String members separated by commas.
pub open spec fn members_text(n: nat, ks: Seq<Seq<char>>, vs: Seq<Seq<char>>) -> Seq<char>
    decreases ks.len(),
{
    if ks.len() == 0 {
        Seq::empty()
    } else if ks.len() == 1 {
        member_json(n, ks[0], vs[0])
    } else {
        member_json(n, ks[0], vs[0]) + seq![','] + members_text(n, ks.drop_first(), vs.drop_first())
    }
}

pub proof fn lemma_members_text_push(
    n: nat,
    ks: Seq<Seq<char>>,
    vs: Seq<Seq<char>>,
    k: Seq<char>,
    v: Seq<char>,
)
    requires
        ks.len() == vs.len(),
        ks.len() > 0,
    ensures
        members_text(n, ks.push(k), vs.push(v)) == members_text(n, ks, vs) + seq![','] + member_json(
            n,
            k,
            v,
        ),
    decreases ks.len(),
{
    if ks.len() == 1 {
        assert(ks.push(k).drop_first() =~= seq![k]);
        assert(vs.push(v).drop_first() =~= seq![v]);
        assert(members_text(n, seq![k], seq![v]) == member_json(n, k, v));
    } else {
        assert(ks.push(k).drop_first() =~= ks.drop_first().push(k));
        assert(vs.push(v).drop_first() =~= vs.drop_first().push(v));
        lemma_members_text_push(n, ks.drop_first(), vs.drop_first(), k, v);
    }
}

/// The JSON text of one event, indented for the `events` array.
pub open spec fn event_json(e: EventV) -> Seq<char> {
    seq![' ', ' ', ' ', ' ', '{'] + members_text(6, event_keys(), event_values(e)) + indent(4)
        + seq!['}']
}

/// The JSON texts of the events, separated by a comma and a line break.
pub open spec fn events_json(es: Seq<EventV>) -> Seq<char>
    decreases es.len(),
{
    if es.len() == 0 {
        Seq::empty()
    } else if es.len() == 1 {
        event_json(es[0])
    } else {
        event_json(es[0]) + seq![',', '\n'] + events_json(es.drop_first())
    }
}

pub proof fn lemma_events_json_push(es: Seq<EventV>, e: EventV)
    requires
        es.len() > 0,
    ensures
        events_json(es.push(e)) == events_json(es) + seq![',', '\n'] + event_json(e),
    decreases es.len(),
{
    let n = es.push(e);
    assert(n[0] == es[0]);
    if es.len() == 1 {
        assert(n.drop_first() =~= seq![e]);
        assert(events_json(seq![e]) == event_json(e));
    } else {
        assert(n.drop_first() =~= es.drop_first().push(e));
        lemma_events_json_push(es.drop_first(), e);
    }
}

/// The keys of the feed's string members.
pub open spec fn feed_keys() -> Seq<Seq<char>> {
    seq!["generated_at"@, "username"@]
}

/// The `events` member of the feed: the key, then the array, one event per
/// line block.
pub open spec fn events_member(es: Seq<EventV>) -> Seq<char> {
    indent(2) + seq!['"'] + "events"@ + seq!['"', ':', ' ', '['] + seq!['\n'] + events_json(es)
        + indent(2) + seq![']']
}

/// The JSON text of a feed, as `feed.json` holds it.
pub open spec fn feed_json(f: FeedV) -> Seq<char> {
    seq!['{'] + members_text(2, feed_keys(), seq![f.generated_at, f.username]) + seq![',']
        + events_member(f.events) + seq!['\n', '}', '\n']
}

fn push_indent(out: &mut Vec<char>, n: usize)
    ensures
        final(out)@ == old(out)@ + indent(n as nat),
{
    let ghost start = out@;
    out.push('\n');
    let mut i: usize = 0;
    while i < n
        invariant
            i <= n,
            out@ == start + seq!['\n'] + Seq::new(i as nat, |k: int| ' '),
        decreases n - i,
    {
        out.push(' ');
        i += 1;
        assert(out@ =~= start + seq!['\n'] + Seq::new(i as nat, |k: int| ' '));
    }
}

fn push_member(out: &mut Vec<char>, n: usize, key: &str, value: &String)
    ensures
        final(out)@ == old(out)@ + member_json(n as nat, key@, value@),
{
    let ghost start = out@;
    push_indent(out, n);
    out.push('"');
    push_str(out, key);
    out.push('"');
    out.push(':');
    out.push(' ');
    out.push('"');
    let cs = chars_of(value.as_str());
    let esc = json_escape_chars(&cs);
    push_chars(out, &esc);
    out.push('"');
    assert(out@ =~= start + member_json(n as nat, key@, value@));
}

fn event_json_chars(e: &Event) -> (r: Vec<char>)
    ensures
        r@ == event_json(e@),
{
    let mut out: Vec<char> = Vec::new();
    out.push(' ');
    out.push(' ');
    out.push(' ');
    out.push(' ');
    out.push('{');
    let keys: [&str; 10] = [
        "id",
        "event_type",
        "repo",
        "title",
        "url",
        "occurred_at",
        "thread_id",
        "thread_title",
        "thread_url",
        "status",
    ];
    let values: [&String; 10] = [
        &e.id,
        &e.event_type,
        &e.repo,
        &e.title,
        &e.url,
        &e.occurred_at,
        &e.thread_id,
        &e.thread_title,
        &e.thread_url,
        &e.status,
    ];
    let ghost ks = event_keys();
    let ghost vs = event_values(e@);
    assert(forall|k: int| 0 <= k < 10 ==> (#[trigger] keys@[k])@ == ks[k]);
    assert(forall|k: int| 0 <= k < 10 ==> (#[trigger] values@[k])@ == vs[k]);
    let ghost head = out@;
    let mut i: usize = 0;
    assert(head + members_text(6, ks.take(0), vs.take(0)) =~= head);
    while i < 10
        invariant
            i <= 10,
            ks == event_keys(),
            vs == event_values(e@),
            keys@.len() == 10,
            values@.len() == 10,
            forall|k: int| 0 <= k < 10 ==> (#[trigger] keys@[k])@ == ks[k],
            forall|k: int| 0 <= k < 10 ==> (#[trigger] values@[k])@ == vs[k],
            out@ == head + members_text(6, ks.take(i as int), vs.take(i as int)),
        decreases 10 - i,
    {
        if i > 0 {
            out.push(',');
        }
        push_member(&mut out, 6, keys[i], values[i]);
        proof {
            assert(ks.take(i + 1) =~= ks.take(i as int).push(ks[i as int]));
            assert(vs.take(i + 1) =~= vs.take(i as int).push(vs[i as int]));
            if i == 0 {
                assert(members_text(6, ks.take(1), vs.take(1)) == member_json(6, ks[0], vs[0]));
                assert(out@ =~= head + members_text(6, ks.take(1), vs.take(1)));
            } else {
                lemma_members_text_push(6, ks.take(i as int), vs.take(i as int), ks[i as int], vs[i as int]);
                assert(out@ =~= head + members_text(6, ks.take(i + 1), vs.take(i + 1)));
            }
        }
        i += 1;
    }
    assert(ks.take(10) =~= ks);
    assert(vs.take(10) =~= vs);
    push_indent(&mut out, 4);
    out.push('}');
    assert(out@ =~= event_json(e@));
    out
}

impl Feed {
    /// The feed as JSON, two-space indented, one field per line.
    pub fn to_json(&self) -> (r: String)
        ensures
            r@ == feed_json(self@),
    {
        let mut out: Vec<char> = Vec::new();
        out.push('{');
        push_member(&mut out, 2, "generated_at", &self.generated_at);
        out.push(',');
        push_member(&mut out, 2, "username", &self.username);
        out.push(',');
        push_indent(&mut out, 2);
        out.push('"');
        push_str(&mut out, "events");
        out.push('"');
        out.push(':');
        out.push(' ');
        out.push('[');
        out.push('\n');
        let ghost head = out@;
        let ghost evs = event_views(self.events@);
        let mut i: usize = 0;
        assert(evs.take(0) =~= Seq::<EventV>::empty());
        assert(head + events_json(evs.take(0)) =~= head);
        while i < self.events.len()
            invariant
                i <= self.events@.len(),
                evs == event_views(self.events@),
                out@ == head + events_json(evs.take(i as int)),
            decreases self.events@.len() - i,
        {
            if i > 0 {
                out.push(',');
                out.push('\n');
            }
            let buf = event_json_chars(&self.events[i]);
            push_chars(&mut out, &buf);
            proof {
                assert(evs.take(i + 1) =~= evs.take(i as int).push(self.events@[i as int]@));
                if i == 0 {
                    assert(evs.take(1) =~= seq![self.events@[0]@]);
                    assert(out@ =~= head + events_json(evs.take(1)));
                } else {
                    lemma_events_json_push(evs.take(i as int), self.events@[i as int]@);
                    assert(out@ =~= head + events_json(evs.take(i + 1)));
                }
            }
            i += 1;
        }
        assert(evs.take(i as int) =~= evs);
        push_indent(&mut out, 2);
        out.push(']');
        out.push('\n');
        out.push('}');
        out.push('\n');
        proof {
            let ks = feed_keys();
            let vs = seq![self.generated_at@, self.username@];
            assert(ks.drop_first() =~= seq!["username"@]);
            assert(vs.drop_first() =~= seq![self.username@]);
            assert(members_text(2, ks.drop_first(), vs.drop_first()) == member_json(
                2,
                "username"@,
                self.username@,
            ));
            assert(members_text(2, ks, vs) == member_json(2, "generated_at"@, self.generated_at@)
                + seq![','] + member_json(2, "username"@, self.username@));
        }
        assert(out@ =~= feed_json(self@));
        string_of(&out)
    }
}

/// The text of the string member `k` of `v`, or nothing when there is none.
pub open spec fn text_field(v: JsonV, k: Seq<char>) -> Seq<char> {
    match json_get(v, k) {
        Some(JsonV::Str(t)) => t,
        _ => Seq::empty(),
    }
}

/// The event an item of the feed's `events` array describes.
pub open spec fn event_from_item(item: JsonV) -> EventV {
    EventV {
        id: text_field(item, "id"@),
        event_type: text_field(item, "event_type"@),
        repo: text_field(item, "repo"@),
        title: text_field(item, "title"@),
        url: text_field(item, "url"@),
        occurred_at: text_field(item, "occurred_at"@),
        thread_id: text_field(item, "thread_id"@),
        thread_title: text_field(item, "thread_title"@),
        thread_url: text_field(item, "thread_url"@),
        status: text_field(item, "status"@),
    }
}

/// The items of the feed's `events` array, or none.
pub open spec fn feed_items(v: JsonV) -> Seq<JsonV> {
    match json_get(v, "events"@) {
        Some(JsonV::Array(a)) => a,
        _ => Seq::empty(),
    }
}

/// The feed a JSON value describes; missing or non-string fields read as empty.
pub open spec fn feed_from_json(v: JsonV) -> FeedV {
    FeedV {
        generated_at: text_field(v, "generated_at"@),
        username: text_field(v, "username"@),
        events: feed_items(v).map_values(|i: JsonV| event_from_item(i)),
    }
}

/// The feed a JSON text describes, or the error reading it.
pub open spec fn read_feed(raw: Seq<char>) -> Result<FeedV, Seq<char>> {
    match parse_json_text(raw) {
        Ok(v) => Ok(feed_from_json(v)),
        Err(e) => Err(e),
    }
}

/// The string member `key` of `j`, or an empty string.
pub fn text_of(j: &Json, key: &str) -> (r: String)
    ensures
        r@ == text_field(j@, key@),
{
    match j.get(key) {
        Some(v) => match v.string() {
            Some(t) => t.clone(),
            None => String::new(),
        },
        None => String::new(),
    }
}

fn event_of_item(item: &Json) -> (r: Event)
    ensures
        r@ == event_from_item(item@),
{
    Event {
        id: text_of(item, "id"),
        event_type: text_of(item, "event_type"),
        repo: text_of(item, "repo"),
        title: text_of(item, "title"),
        url: text_of(item, "url"),
        occurred_at: text_of(item, "occurred_at"),
        thread_id: text_of(item, "thread_id"),
        thread_title: text_of(item, "thread_title"),
        thread_url: text_of(item, "thread_url"),
        status: text_of(item, "status"),
    }
}

impl Feed {
    /// The feed a parsed JSON value describes.
    pub fn from_json(json: &Json) -> (r: Feed)
        ensures
            r@ == feed_from_json(json@),
    {
        let generated_at = text_of(json, "generated_at");
        let username = text_of(json, "username");
        let mut events: Vec<Event> = Vec::new();
        let ghost items = feed_items(json@);
        let empty: Vec<Json> = Vec::new();
        let arr: &Vec<Json> = match json.get("events") {
            Some(v) => match v.array() {
                Some(a) => a,
                None => &empty,
            },
            None => &empty,
        };
        assert(json_views(arr@) =~= items);
        let mut i: usize = 0;
        while i < arr.len()
            invariant
                i <= arr@.len(),
                json_views(arr@) == items,
                event_views(events@) == items.take(i as int).map_values(|x: JsonV| event_from_item(x)),
            decreases arr@.len() - i,
        {
            let e = event_of_item(&arr[i]);
            proof {
                assert(items[i as int] == arr@[i as int]@);
                assert(event_views(events@.push(e)) =~= event_views(events@).push(e@));
                assert(items.take(i + 1).map_values(|x: JsonV| event_from_item(x)) =~= items.take(
                    i as int,
                ).map_values(|x: JsonV| event_from_item(x)).push(event_from_item(items[i as int])));
            }
            events.push(e);
            i += 1;
        }
        assert(items.take(i as int) =~= items);
        Feed { generated_at, username, events }
    }

    /// Reads a feed from its JSON text; a text that is not JSON is an error.
    pub fn from_json_text(raw: &str) -> (r: Result<Feed, String>)
        ensures
            r matches Ok(f) ==> read_feed(raw@) == Ok::<FeedV, Seq<char>>(f@),
            r matches Err(e) ==> read_feed(raw@) == Err::<FeedV, Seq<char>>(e@),
    {
        let json = parse_json(raw)?;
        Ok(Feed::from_json(&json))
    }
}

} // verus!
