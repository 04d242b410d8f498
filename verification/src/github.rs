//! Contributions read from GitHub's GraphQL answers: the events of the
//! allowlisted repositories, the candidate repositories, and the comments
//! found by a search.
//!
//! Numbers stay in a parsed answer as the text they were written with; the
//! integer each stands for comes in a table of (text, value) pairs that the
//! caller builds from `Json::number_texts`.
use vstd::prelude::*;
use crate::config::Config;
use crate::config::ConfigV;
use crate::dates::{int_text, push_int};
use crate::feed::{event_views, text_field, text_of, Event, EventV};
use crate::json::{json_get, json_string, json_views, Json, JsonV};
use crate::sorted::{insert_sorted, sorted_contains, strictly_sorted};
use crate::text::{
    chars_equal_str, chars_of, contains_exec, contains_text, push_str, string_of, string_order,
    TextOrder,
};
use crate::toml::string_views;

verus! {

/// The integer value given for the number written as `t`: the first entry
/// of `table` for it.
pub open spec fn number_lookup(table: Seq<(String, i64)>, t: Seq<char>) -> Option<i64>
    decreases table.len(),
{
    if table.len() == 0 {
        None
    } else if table[0].0@ == t {
        Some(table[0].1)
    } else {
        number_lookup(table.drop_first(), t)
    }
}

/// The integer value of `v` when it is a number, else `default`. A number
/// that `table` does not list counts as missing.
pub open spec fn number_or(table: Seq<(String, i64)>, v: Option<JsonV>, default: i64) -> i64 {
    match v {
        Some(JsonV::Number(t)) => match number_lookup(table, t) {
            Some(n) => n,
            None => default,
        },
        _ => default,
    }
}

/// The text of the string member `k` of `v`, if there is one.
pub open spec fn str_member(v: JsonV, k: Seq<char>) -> Option<Seq<char>> {
    match json_get(v, k) {
        Some(c) => json_string(c),
        None => None,
    }
}

/// The value that `table` gives for the number written as `t`.
pub fn lookup_number(table: &[(String, i64)], t: &String) -> (r: Option<i64>)
    ensures
        r == number_lookup(table@, t@),
{
    let mut i: usize = 0;
    assert(table@.skip(0) =~= table@);
    while i < table.len()
        invariant
            i <= table@.len(),
            number_lookup(table@, t@) == number_lookup(table@.skip(i as int), t@),
        decreases table@.len() - i,
    {
        assert(table@.skip(i as int)[0] == table@[i as int]);
        if string_order(&table[i].0, t) == TextOrder::Equal {
            return Some(table[i].1);
        }
        assert(table@.skip(i as int).drop_first() =~= table@.skip(i + 1));
        i += 1;
    }
    None
}

/// The integer value of the member `key` of `j`, or `default`.
fn number_member(table: &[(String, i64)], j: &Json, key: &str, default: i64) -> (r: i64)
    ensures
        r == number_or(table@, json_get(j@, key@), default),
{
    match j.get(key) {
        Some(v) => match v.number_text() {
            Some(t) => match lookup_number(table, t) {
                Some(n) => n,
                None => default,
            },
            None => default,
        },
        None => default,
    }
}

/// The string member `key` of `j`, if there is one.
fn string_member(j: &Json, key: &str) -> (r: Option<String>)
    ensures
        r matches Some(s) ==> str_member(j@, key@) == Some(s@),
        r is None ==> str_member(j@, key@) is None,
{
    match j.get(key) {
        Some(v) => match v.string() {
            Some(s) => Some(s.clone()),
            None => None,
        },
        None => None,
    }
}

/// The thread of a numbered issue or pull request: `repo#number`.
pub open spec fn thread_ref(repo: Seq<char>, number: i64) -> Seq<char> {
    repo + "#"@ + int_text(number as int)
}

fn thread_ref_exec(repo: &str, number: i64) -> (r: String)
    ensures
        r@ == thread_ref(repo@, number),
{
    let mut out: Vec<char> = Vec::new();
    push_str(&mut out, repo);
    push_str(&mut out, "#");
    push_int(&mut out, number);
    string_of(&out)
}

/// The event of a pull request or an issue `x` of `repo`; `None` when one of
/// its id, title, url and creation time is missing.
pub open spec fn item_event(kind: Seq<char>, repo: Seq<char>, x: JsonV, table: Seq<(String, i64)>) -> Option<EventV> {
    match (str_member(x, "id"@), str_member(x, "title"@), str_member(x, "url"@), str_member(x, "createdAt"@)) {
        (Some(id), Some(title), Some(url), Some(at)) => Some(
            EventV {
                id: id,
                event_type: kind,
                repo: repo,
                title: title,
                url: url,
                occurred_at: at,
                thread_id: thread_ref(repo, number_or(table, json_get(x, "number"@), 0)),
                thread_title: title,
                thread_url: url,
                status: text_field(x, "state"@),
            },
        ),
        _ => None,
    }
}

/// The title of a group of `count` commits.
pub open spec fn commits_title(count: i64) -> Seq<char> {
    int_text(count as int) + " commit"@ + if count == 1 {
        Seq::<char>::empty()
    } else {
        "s"@
    }
}

/// The event of a group of commits made on one day; `None` without its date.
/// A missing count counts one commit.
pub open spec fn commit_event(kind: Seq<char>, repo: Seq<char>, node: JsonV, table: Seq<(String, i64)>) -> Option<EventV> {
    match str_member(node, "occurredAt"@) {
        Some(date) => {
            let count = number_or(table, json_get(node, "commitCount"@), 1);
            let url = text_field(node, "url"@);
            Some(
                EventV {
                    id: repo + ":commit:"@ + date + ":"@ + int_text(count as int),
                    event_type: kind,
                    repo: repo,
                    title: commits_title(count),
                    url: url,
                    occurred_at: date,
                    thread_id: repo + ":commits:"@ + date,
                    thread_title: "Commits"@,
                    thread_url: url,
                    status: Seq::empty(),
                },
            )
        },
        None => None,
    }
}

/// The event of a review `rv` of the pull request `pr`; `None` when the
/// pull request's title or url, or the review's id, url or time is missing.
pub open spec fn review_event(kind: Seq<char>, repo: Seq<char>, rv: JsonV, pr: JsonV, table: Seq<(String, i64)>) -> Option<EventV> {
    match (str_member(pr, "title"@), str_member(pr, "url"@), str_member(rv, "id"@), str_member(rv, "url"@), str_member(rv, "createdAt"@)) {
        (Some(tt), Some(tu), Some(id), Some(url), Some(at)) => Some(
            EventV {
                id: id,
                event_type: kind,
                repo: repo,
                title: "Reviewed "@ + tt,
                url: url,
                occurred_at: at,
                thread_id: thread_ref(repo, number_or(table, json_get(pr, "number"@), 0)),
                thread_title: tt,
                thread_url: tu,
                status: text_field(rv, "state"@),
            },
        ),
        _ => None,
    }
}

/// The event a contribution node of the given kind describes, if any. The
/// kinds are `pull_request`, `issue`, `commit` and `review`.
pub open spec fn node_event(kind: Seq<char>, repo: Seq<char>, node: JsonV, table: Seq<(String, i64)>) -> Option<EventV> {
    if kind == "pull_request"@ {
        match json_get(node, "pullRequest"@) {
            Some(x) => item_event(kind, repo, x, table),
            None => None,
        }
    } else if kind == "issue"@ {
        match json_get(node, "issue"@) {
            Some(x) => item_event(kind, repo, x, table),
            None => None,
        }
    } else if kind == "commit"@ {
        commit_event(kind, repo, node, table)
    } else if kind == "review"@ {
        match json_get(node, "pullRequestReview"@) {
            Some(rv) => match json_get(rv, "pullRequest"@) {
                Some(pr) => review_event(kind, repo, rv, pr, table),
                None => None,
            },
            None => None,
        }
    } else {
        None
    }
}

fn item_event_exec(kind: &str, repo: &str, x: &Json, table: &[(String, i64)]) -> (r: Option<Event>)
    ensures
        r matches Some(e) ==> item_event(kind@, repo@, x@, table@) == Some(e@),
        r is None ==> item_event(kind@, repo@, x@, table@) is None,
{
    let id = string_member(x, "id");
    let title = string_member(x, "title");
    let url = string_member(x, "url");
    let at = string_member(x, "createdAt");
    match (id, title, url, at) {
        (Some(id), Some(title), Some(url), Some(at)) => {
            let number = number_member(table, x, "number", 0);
            Some(
                Event {
                    id: id,
                    event_type: kind.to_owned(),
                    repo: repo.to_owned(),
                    title: title.clone(),
                    url: url.clone(),
                    occurred_at: at,
                    thread_id: thread_ref_exec(repo, number),
                    thread_title: title,
                    thread_url: url,
                    status: text_of(x, "state"),
                },
            )
        },
        _ => None,
    }
}

fn commit_event_exec(kind: &str, repo: &str, node: &Json, table: &[(String, i64)]) -> (r: Option<Event>)
    ensures
        r matches Some(e) ==> commit_event(kind@, repo@, node@, table@) == Some(e@),
        r is None ==> commit_event(kind@, repo@, node@, table@) is None,
{
    match string_member(node, "occurredAt") {
        Some(date) => {
            let count = number_member(table, node, "commitCount", 1);
            let url = text_of(node, "url");
            let mut id: Vec<char> = Vec::new();
            push_str(&mut id, repo);
            push_str(&mut id, ":commit:");
            push_str(&mut id, date.as_str());
            push_str(&mut id, ":");
            push_int(&mut id, count);
            let mut title: Vec<char> = Vec::new();
            push_int(&mut title, count);
            push_str(&mut title, " commit");
            if count != 1 {
                push_str(&mut title, "s");
            }
            let mut thread: Vec<char> = Vec::new();
            push_str(&mut thread, repo);
            push_str(&mut thread, ":commits:");
            push_str(&mut thread, date.as_str());
            assert(title@ =~= commits_title(count));
            Some(
                Event {
                    id: string_of(&id),
                    event_type: kind.to_owned(),
                    repo: repo.to_owned(),
                    title: string_of(&title),
                    url: url.clone(),
                    occurred_at: date,
                    thread_id: string_of(&thread),
                    thread_title: "Commits".to_owned(),
                    thread_url: url,
                    status: String::new(),
                },
            )
        },
        None => None,
    }
}

fn review_event_exec(kind: &str, repo: &str, rv: &Json, pr: &Json, table: &[(String, i64)]) -> (r: Option<Event>)
    ensures
        r matches Some(e) ==> review_event(kind@, repo@, rv@, pr@, table@) == Some(e@),
        r is None ==> review_event(kind@, repo@, rv@, pr@, table@) is None,
{
    let tt = string_member(pr, "title");
    let tu = string_member(pr, "url");
    let id = string_member(rv, "id");
    let url = string_member(rv, "url");
    let at = string_member(rv, "createdAt");
    match (tt, tu, id, url, at) {
        (Some(tt), Some(tu), Some(id), Some(url), Some(at)) => {
            let number = number_member(table, pr, "number", 0);
            let mut title: Vec<char> = Vec::new();
            push_str(&mut title, "Reviewed ");
            push_str(&mut title, tt.as_str());
            Some(
                Event {
                    id: id,
                    event_type: kind.to_owned(),
                    repo: repo.to_owned(),
                    title: string_of(&title),
                    url: url,
                    occurred_at: at,
                    thread_id: thread_ref_exec(repo, number),
                    thread_title: tt,
                    thread_url: tu,
                    status: text_of(rv, "state"),
                },
            )
        },
        _ => None,
    }
}

/// The event a contribution node of the given kind describes, if any.
pub fn event_from_node(kind: &str, repo: &str, node: &Json, table: &[(String, i64)]) -> (r: Option<Event>)
    ensures
        r matches Some(e) ==> node_event(kind@, repo@, node@, table@) == Some(e@),
        r is None ==> node_event(kind@, repo@, node@, table@) is None,
{
    let cs = chars_of(kind);
    if chars_equal_str(&cs, "pull_request") {
        match node.get("pullRequest") {
            Some(x) => item_event_exec(kind, repo, x, table),
            None => None,
        }
    } else if chars_equal_str(&cs, "issue") {
        match node.get("issue") {
            Some(x) => item_event_exec(kind, repo, x, table),
            None => None,
        }
    } else if chars_equal_str(&cs, "commit") {
        commit_event_exec(kind, repo, node, table)
    } else if chars_equal_str(&cs, "review") {
        match node.get("pullRequestReview") {
            Some(rv) => match rv.get("pullRequest") {
                Some(pr) => review_event_exec(kind, repo, rv, pr, table),
                None => None,
            },
            None => None,
        }
    } else {
        None
    }
}

/// What `str::to_lowercase` gives for `s`: Unicode's lowercase mapping,
/// which depends on the text alone.
pub uninterp spec fn lowercase(s: Seq<char>) -> Seq<char>;

/// Calls `str::to_lowercase`; its result is named `lowercase` of the
/// argument, and nothing more is claimed of it.
#[verifier::external_body]
fn to_lowercase(s: &str) -> (r: String)
    ensures
        r@ == lowercase(s@),
{
    s.to_lowercase()
}

/// The topic names of the topic nodes of a repository, each followed by a space.
pub open spec fn topic_names(nodes: Seq<JsonV>) -> Seq<char>
    decreases nodes.len(),
{
    if nodes.len() == 0 {
        Seq::empty()
    } else {
        topic_names(nodes.drop_last()) + match json_get(nodes.last(), "topic"@) {
            Some(t) => match str_member(t, "name"@) {
                Some(n) => n + " "@,
                None => Seq::empty(),
            },
            None => Seq::empty(),
        }
    }
}

/// The items of the array member `k` of `v`, or none.
pub open spec fn array_member(v: JsonV, k: Seq<char>) -> Seq<JsonV> {
    match json_get(v, k) {
        Some(JsonV::Array(a)) => a,
        _ => Seq::empty(),
    }
}

/// The text searched for keywords: the repository's name, description and
/// topic names that are strings, each followed by a space.
pub open spec fn haystack(repo: JsonV) -> Seq<char> {
    (match str_member(repo, "nameWithOwner"@) {
        Some(n) => n + " "@,
        None => Seq::empty(),
    }) + (match str_member(repo, "description"@) {
        Some(d) => d + " "@,
        None => Seq::empty(),
    }) + (match json_get(repo, "repositoryTopics"@) {
        Some(t) => topic_names(array_member(t, "nodes"@)),
        None => Seq::empty(),
    })
}

/// Some text of `needles` occurs in `hay`.
pub open spec fn any_occurs(hay: Seq<char>, needles: Seq<Seq<char>>) -> bool {
    exists|i: int| 0 <= i < needles.len() && contains_text(hay, #[trigger] needles[i])
}

/// The keywords as `str::to_lowercase` gives them.
pub open spec fn lowercase_all(ks: Seq<Seq<char>>) -> Seq<Seq<char>> {
    ks.map_values(|k: Seq<char>| lowercase(k))
}

/// Whether the repository `repo` mentions a keyword, case aside.
pub open spec fn keywords_in(repo: Option<JsonV>, keywords: Seq<Seq<char>>) -> bool {
    match repo {
        Some(r) => any_occurs(lowercase(haystack(r)), lowercase_all(keywords)),
        None => false,
    }
}

/// Whether one of `needles` occurs in `hay`.
pub fn any_keyword_in(hay: &str, needles: &[String]) -> (r: bool)
    ensures
        r == any_occurs(hay@, string_views(needles@)),
{
    let h = chars_of(hay);
    let mut i: usize = 0;
    while i < needles.len()
        invariant
            i <= needles@.len(),
            h@ == hay@,
            forall|m: int| 0 <= m < i ==> !contains_text(hay@, #[trigger] string_views(needles@)[m]),
        decreases needles@.len() - i,
    {
        let n = chars_of(needles[i].as_str());
        if contains_exec(&h, &n) {
            assert(string_views(needles@)[i as int] == n@);
            return true;
        }
        i += 1;
    }
    false
}

fn push_member_and_space(out: &mut Vec<char>, j: &Json, key: &str)
    ensures
        final(out)@ == old(out)@ + match str_member(j@, key@) {
            Some(t) => t + " "@,
            None => Seq::<char>::empty(),
        },
{
    match string_member(j, key) {
        Some(t) => {
            push_str(out, t.as_str());
            push_str(out, " ");
            assert(out@ =~= old(out)@ + (t@ + " "@));
        },
        None => {
            assert(out@ =~= old(out)@ + Seq::<char>::empty());
        },
    }
}

/// Whether the repository `repo` mentions one of `keywords` in its name,
/// description or topics, case aside.
pub fn repo_matches_keywords(repo: Option<&Json>, keywords: &[String]) -> (r: bool)
    ensures
        r == keywords_in(
            match repo {
                Some(j) => Some(j@),
                None => None,
            },
            string_views(keywords@),
        ),
{
    let repo = match repo {
        Some(j) => j,
        None => {
            return false;
        },
    };
    let mut hay: Vec<char> = Vec::new();
    push_member_and_space(&mut hay, repo, "nameWithOwner");
    push_member_and_space(&mut hay, repo, "description");
    let ghost before = hay@;
    match repo.get("repositoryTopics") {
        Some(t) => {
            let empty: Vec<Json> = Vec::new();
            let nodes: &Vec<Json> = match t.get("nodes") {
                Some(n) => match n.array() {
                    Some(a) => a,
                    None => &empty,
                },
                None => &empty,
            };
            let ghost nv = array_member(t@, "nodes"@);
            assert(json_views(nodes@) =~= nv);
            let mut i: usize = 0;
            assert(nv.take(0) =~= Seq::<JsonV>::empty());
            while i < nodes.len()
                invariant
                    i <= nodes@.len(),
                    json_views(nodes@) == nv,
                    hay@ == before + topic_names(nv.take(i as int)),
                decreases nodes@.len() - i,
            {
                assert(nv.take(i + 1).drop_last() =~= nv.take(i as int));
                assert(nv.take(i + 1).last() == nodes@[i as int]@);
                match nodes[i].get("topic") {
                    Some(tp) => push_member_and_space(&mut hay, tp, "name"),
                    None => {},
                }
                assert(hay@ =~= before + topic_names(nv.take(i + 1)));
                i += 1;
            }
            assert(nv.take(i as int) =~= nv);
        },
        None => {},
    }
    assert(hay@ =~= haystack(repo@));
    let lower = to_lowercase(string_of(&hay).as_str());
    let mut lower_keys: Vec<String> = Vec::new();
    let mut k: usize = 0;
    while k < keywords.len()
        invariant
            k <= keywords@.len(),
            string_views(lower_keys@) == lowercase_all(string_views(keywords@)).take(k as int),
        decreases keywords@.len() - k,
    {
        let lk = to_lowercase(keywords[k].as_str());
        proof {
            assert(string_views(lower_keys@.push(lk)) =~= string_views(lower_keys@).push(lk@));
            assert(lowercase_all(string_views(keywords@)).take(k + 1) =~= lowercase_all(
                string_views(keywords@),
            ).take(k as int).push(lowercase(keywords@[k as int]@)));
        }
        lower_keys.push(lk);
        k += 1;
    }
    assert(lowercase_all(string_views(keywords@)).take(k as int) =~= lowercase_all(string_views(keywords@)));
    any_keyword_in(lower.as_str(), &lower_keys)
}

/// The repository name of a contribution group, or nothing.
pub open spec fn repo_name(group: JsonV) -> Seq<char> {
    match json_get(group, "repository"@) {
        Some(r) => text_field(r, "nameWithOwner"@),
        None => Seq::empty(),
    }
}

/// The contribution nodes of a group, or none.
pub open spec fn nodes_of(group: JsonV) -> Seq<JsonV> {
    match json_get(group, "contributions"@) {
        Some(c) => array_member(c, "nodes"@),
        None => Seq::empty(),
    }
}

/// The events of `nodes`, in order, leaving out the nodes that describe none.
pub open spec fn node_events(kind: Seq<char>, repo: Seq<char>, nodes: Seq<JsonV>, table: Seq<(String, i64)>) -> Seq<EventV>
    decreases nodes.len(),
{
    if nodes.len() == 0 {
        Seq::empty()
    } else {
        let prev = node_events(kind, repo, nodes.drop_last(), table);
        match node_event(kind, repo, nodes.last(), table) {
            Some(e) => prev.push(e),
            None => prev,
        }
    }
}

/// A group counts when its repository is named, not excluded, and allowlisted.
pub open spec fn group_counts(cfg: ConfigV, group: JsonV) -> bool {
    let repo = repo_name(group);
    repo.len() > 0 && !cfg.exclude.contains(repo) && cfg.allowlist.contains(repo)
}

/// A group's repository is a candidate when it is named, neither excluded
/// nor allowlisted, and mentions a keyword.
pub open spec fn group_is_candidate(cfg: ConfigV, group: JsonV) -> bool {
    let repo = repo_name(group);
    &&& repo.len() > 0
    &&& !cfg.exclude.contains(repo)
    &&& !cfg.allowlist.contains(repo)
    &&& keywords_in(json_get(group, "repository"@), cfg.keywords)
}

/// The events of the groups that count, group after group.
pub open spec fn groups_events(cfg: ConfigV, kind: Seq<char>, groups: Seq<JsonV>, table: Seq<(String, i64)>) -> Seq<EventV>
    decreases groups.len(),
{
    if groups.len() == 0 {
        Seq::empty()
    } else {
        groups_events(cfg, kind, groups.drop_last(), table) + if group_counts(cfg, groups.last()) {
            node_events(kind, repo_name(groups.last()), nodes_of(groups.last()), table)
        } else {
            Seq::empty()
        }
    }
}

/// The candidate repositories of `groups`.
pub open spec fn groups_candidates(cfg: ConfigV, groups: Seq<JsonV>) -> Set<Seq<char>>
    decreases groups.len(),
{
    if groups.len() == 0 {
        Set::empty()
    } else {
        let prev = groups_candidates(cfg, groups.drop_last());
        if group_is_candidate(cfg, groups.last()) {
            prev.insert(repo_name(groups.last()))
        } else {
            prev
        }
    }
}

/// The `contributionsCollection` of a contributions answer, if it has one.
pub open spec fn contributions_collection(graph: JsonV) -> Option<JsonV> {
    match json_get(graph, "data"@) {
        Some(d) => match json_get(d, "user"@) {
            Some(u) => json_get(u, "contributionsCollection"@),
            None => None,
        },
        None => None,
    }
}

/// The events of a contributions collection: pull requests, then issues,
/// then commits, then reviews.
pub open spec fn collection_events(cfg: ConfigV, coll: JsonV, table: Seq<(String, i64)>) -> Seq<EventV> {
    groups_events(cfg, "pull_request"@, array_member(coll, "pullRequestContributionsByRepository"@), table)
        + groups_events(cfg, "issue"@, array_member(coll, "issueContributionsByRepository"@), table)
        + groups_events(cfg, "commit"@, array_member(coll, "commitContributionsByRepository"@), table)
        + groups_events(cfg, "review"@, array_member(coll, "pullRequestReviewContributionsByRepository"@), table)
}

/// The candidate repositories of a contributions collection.
pub open spec fn collection_candidates(cfg: ConfigV, coll: JsonV) -> Set<Seq<char>> {
    groups_candidates(cfg, array_member(coll, "pullRequestContributionsByRepository"@))
        + groups_candidates(cfg, array_member(coll, "issueContributionsByRepository"@))
        + groups_candidates(cfg, array_member(coll, "commitContributionsByRepository"@))
        + groups_candidates(cfg, array_member(coll, "pullRequestReviewContributionsByRepository"@))
}

fn array_of<'a>(j: &'a Json, key: &str, empty: &'a Vec<Json>) -> (r: &'a Vec<Json>)
    requires
        empty@.len() == 0,
    ensures
        json_views(r@) == array_member(j@, key@),
{
    match j.get(key) {
        Some(v) => match v.array() {
            Some(a) => a,
            None => {
                assert(json_views(empty@) =~= Seq::<JsonV>::empty());
                empty
            },
        },
        None => {
            assert(json_views(empty@) =~= Seq::<JsonV>::empty());
            empty
        },
    }
}

fn group_node_events(kind: &str, repo: &String, group: &Json, table: &[(String, i64)], events: &mut Vec<Event>)
    ensures
        event_views(final(events)@) == event_views(old(events)@) + node_events(kind@, repo@, nodes_of(group@), table@),
{
    let empty: Vec<Json> = Vec::new();
    let ghost nv = nodes_of(group@);
    let nodes: &Vec<Json> = match group.get("contributions") {
        Some(c) => array_of(c, "nodes", &empty),
        None => {
            assert(json_views(empty@) =~= nv);
            &empty
        },
    };
    let ghost start = event_views(events@);
    assert(nv.take(0) =~= Seq::<JsonV>::empty());
    assert(start + Seq::<EventV>::empty() =~= start);
    let mut i: usize = 0;
    while i < nodes.len()
        invariant
            i <= nodes@.len(),
            json_views(nodes@) == nv,
            event_views(events@) == start + node_events(kind@, repo@, nv.take(i as int), table@),
        decreases nodes@.len() - i,
    {
        assert(nv.take(i + 1).drop_last() =~= nv.take(i as int));
        assert(nv.take(i + 1).last() == nodes@[i as int]@);
        match event_from_node(kind, repo.as_str(), &nodes[i], table) {
            Some(e) => {
                assert(event_views(events@.push(e)) =~= event_views(events@).push(e@));
                events.push(e);
            },
            None => {},
        }
        assert(event_views(events@) =~= start + node_events(kind@, repo@, nv.take(i + 1), table@));
        i += 1;
    }
    assert(nv.take(i as int) =~= nv);
}

fn extract_kind(
    config: &Config,
    coll: &Json,
    field: &str,
    kind: &str,
    table: &[(String, i64)],
    events: &mut Vec<Event>,
    candidates: &mut Vec<String>,
)
    requires
        config.wf(),
        strictly_sorted(string_views(old(candidates)@)),
    ensures
        event_views(final(events)@) == event_views(old(events)@) + groups_events(
            config@,
            kind@,
            array_member(coll@, field@),
            table@,
        ),
        strictly_sorted(string_views(final(candidates)@)),
        string_views(final(candidates)@).to_set() == string_views(old(candidates)@).to_set()
            + groups_candidates(config@, array_member(coll@, field@)),
{
    let empty: Vec<Json> = Vec::new();
    let groups = array_of(coll, field, &empty);
    let ghost gv = array_member(coll@, field@);
    let ghost ev0 = event_views(events@);
    let ghost cs0 = string_views(candidates@).to_set();
    assert(gv.take(0) =~= Seq::<JsonV>::empty());
    assert(ev0 + Seq::<EventV>::empty() =~= ev0);
    assert(cs0 + Set::<Seq<char>>::empty() =~= cs0);
    let mut i: usize = 0;
    while i < groups.len()
        invariant
            i <= groups@.len(),
            config.wf(),
            json_views(groups@) == gv,
            event_views(events@) == ev0 + groups_events(config@, kind@, gv.take(i as int), table@),
            strictly_sorted(string_views(candidates@)),
            string_views(candidates@).to_set() == cs0 + groups_candidates(config@, gv.take(i as int)),
        decreases groups@.len() - i,
    {
        let group = &groups[i];
        let ghost g = gv[i as int];
        assert(group@ == g);
        assert(gv.take(i + 1).drop_last() =~= gv.take(i as int));
        assert(gv.take(i + 1).last() == g);
        let repo_json = group.get("repository");
        let repo = match repo_json {
            Some(r) => text_of(r, "nameWithOwner"),
            None => String::new(),
        };
        assert(repo@ == repo_name(g));
        let excluded = sorted_contains(&config.exclude, &repo);
        let allowed = sorted_contains(&config.allowlist, &repo);
        if !repo.as_str().is_empty() && !excluded {
            if !allowed && repo_matches_keywords(repo_json, &config.keywords) {
                insert_sorted(candidates, repo.clone());
                assert(string_views(candidates@).to_set() =~= cs0 + groups_candidates(
                    config@,
                    gv.take(i + 1),
                ));
            } else {
                assert(string_views(candidates@).to_set() =~= cs0 + groups_candidates(
                    config@,
                    gv.take(i + 1),
                ));
            }
            if allowed {
                group_node_events(kind, &repo, group, table, events);
                assert(event_views(events@) =~= ev0 + groups_events(config@, kind@, gv.take(i + 1), table@));
            } else {
                assert(event_views(events@) =~= ev0 + groups_events(config@, kind@, gv.take(i + 1), table@));
            }
        } else {
            proof {
                if repo@.len() > 0 {
                    assert(string_views(config.exclude@).contains(repo@));
                }
            }
            assert(string_views(candidates@).to_set() =~= cs0 + groups_candidates(config@, gv.take(i + 1)));
            assert(event_views(events@) =~= ev0 + groups_events(config@, kind@, gv.take(i + 1), table@));
        }
        i += 1;
    }
    assert(gv.take(i as int) =~= gv);
}

/// Reads a contributions answer: the events of the allowlisted repositories,
/// and, as a strictly increasing list, the repositories that are neither
/// allowlisted nor excluded but mention a keyword. An answer without a
/// contributions collection is an error.
pub fn extract_contributions(config: &Config, graph: &Json, table: &[(String, i64)]) -> (r: Result<(Vec<Event>, Vec<String>), String>)
    requires
        config.wf(),
    ensures
        contributions_collection(graph@) is None ==> (r matches Err(e) && e@ == "missing contributionsCollection in GraphQL response"@),
        contributions_collection(graph@) matches Some(coll) ==> (r matches Ok((es, cs)) && event_views(es@) == collection_events(config@, coll, table@)
            && strictly_sorted(string_views(cs@)) && string_views(cs@).to_set() == collection_candidates(config@, coll)),
{
    let coll = match graph.get("data") {
        Some(d) => match d.get("user") {
            Some(u) => u.get("contributionsCollection"),
            None => None,
        },
        None => None,
    };
    let coll = match coll {
        Some(c) => c,
        None => {
            return Err("missing contributionsCollection in GraphQL response".to_owned());
        },
    };
    let mut events: Vec<Event> = Vec::new();
    let mut candidates: Vec<String> = Vec::new();
    assert(string_views(candidates@) =~= Seq::<Seq<char>>::empty());
    assert(event_views(events@) =~= Seq::<EventV>::empty());
    extract_kind(config, coll, "pullRequestContributionsByRepository", "pull_request", table, &mut events, &mut candidates);
    extract_kind(config, coll, "issueContributionsByRepository", "issue", table, &mut events, &mut candidates);
    extract_kind(config, coll, "commitContributionsByRepository", "commit", table, &mut events, &mut candidates);
    extract_kind(config, coll, "pullRequestReviewContributionsByRepository", "review", table, &mut events, &mut candidates);
    assert(event_views(events@) =~= collection_events(config@, coll@, table@));
    assert(string_views(candidates@).to_set() =~= collection_candidates(config@, coll@));
    Ok((events, candidates))
}

/// Every event of `es` belongs to a repository that is allowlisted and not excluded.
pub open spec fn all_listed(cfg: ConfigV, es: Seq<EventV>) -> bool {
    forall|i: int| 0 <= i < es.len() ==> cfg.allowlist.contains(#[trigger] es[i].repo) && !cfg.exclude.contains(es[i].repo)
}

proof fn lemma_node_event_repo(kind: Seq<char>, repo: Seq<char>, node: JsonV, table: Seq<(String, i64)>)
    ensures
        node_event(kind, repo, node, table) matches Some(e) ==> e.repo == repo,
{
}

proof fn lemma_node_events_repo(kind: Seq<char>, repo: Seq<char>, nodes: Seq<JsonV>, table: Seq<(String, i64)>)
    ensures
        forall|i: int| 0 <= i < node_events(kind, repo, nodes, table).len() ==> (#[trigger] node_events(kind, repo, nodes, table)[i]).repo == repo,
    decreases nodes.len(),
{
    if nodes.len() > 0 {
        lemma_node_events_repo(kind, repo, nodes.drop_last(), table);
        lemma_node_event_repo(kind, repo, nodes.last(), table);
        let prev = node_events(kind, repo, nodes.drop_last(), table);
        let all = node_events(kind, repo, nodes, table);
        assert forall|i: int| 0 <= i < all.len() implies (#[trigger] all[i]).repo == repo by {
            if i < prev.len() {
                assert(all[i] == prev[i]);
            }
        }
    }
}

proof fn lemma_all_listed_concat(cfg: ConfigV, a: Seq<EventV>, b: Seq<EventV>)
    requires
        all_listed(cfg, a),
        all_listed(cfg, b),
    ensures
        all_listed(cfg, a + b),
{
    assert forall|i: int| 0 <= i < (a + b).len() implies cfg.allowlist.contains(#[trigger] (a + b)[i].repo) && !cfg.exclude.contains((a + b)[i].repo) by {
        if i < a.len() {
            assert((a + b)[i] == a[i]);
        } else {
            assert((a + b)[i] == b[i - a.len()]);
        }
    }
}

proof fn lemma_groups_listed(cfg: ConfigV, kind: Seq<char>, groups: Seq<JsonV>, table: Seq<(String, i64)>)
    ensures
        all_listed(cfg, groups_events(cfg, kind, groups, table)),
        forall|r: Seq<char>| #[trigger] groups_candidates(cfg, groups).contains(r) ==> r.len() > 0
            && !cfg.allowlist.contains(r) && !cfg.exclude.contains(r),
    decreases groups.len(),
{
    if groups.len() > 0 {
        let g = groups.last();
        lemma_groups_listed(cfg, kind, groups.drop_last(), table);
        lemma_node_events_repo(kind, repo_name(g), nodes_of(g), table);
        let last = if group_counts(cfg, g) {
            node_events(kind, repo_name(g), nodes_of(g), table)
        } else {
            Seq::empty()
        };
        assert(all_listed(cfg, last));
        lemma_all_listed_concat(cfg, groups_events(cfg, kind, groups.drop_last(), table), last);
        let prev = groups_candidates(cfg, groups.drop_last());
        assert forall|r: Seq<char>| #[trigger] groups_candidates(cfg, groups).contains(r) implies r.len() > 0
            && !cfg.allowlist.contains(r) && !cfg.exclude.contains(r) by {
            if !prev.contains(r) {
                assert(group_is_candidate(cfg, g) && r == repo_name(g));
            }
        }
    }
}

/// What is read from a contributions collection respects the configured
/// lists: every event belongs to a repository that is allowlisted and not
/// excluded, and every candidate is a named repository that is neither
/// allowlisted nor excluded.
pub proof fn lemma_collection_respects_lists(cfg: ConfigV, coll: JsonV, table: Seq<(String, i64)>)
    ensures
        all_listed(cfg, collection_events(cfg, coll, table)),
        forall|r: Seq<char>| #[trigger] collection_candidates(cfg, coll).contains(r) ==> r.len() > 0
            && !cfg.allowlist.contains(r) && !cfg.exclude.contains(r),
{
    let k1 = "pullRequestContributionsByRepository"@;
    let k2 = "issueContributionsByRepository"@;
    let k3 = "commitContributionsByRepository"@;
    let k4 = "pullRequestReviewContributionsByRepository"@;
    lemma_groups_listed(cfg, "pull_request"@, array_member(coll, k1), table);
    lemma_groups_listed(cfg, "issue"@, array_member(coll, k2), table);
    lemma_groups_listed(cfg, "commit"@, array_member(coll, k3), table);
    lemma_groups_listed(cfg, "review"@, array_member(coll, k4), table);
    let e1 = groups_events(cfg, "pull_request"@, array_member(coll, k1), table);
    let e2 = groups_events(cfg, "issue"@, array_member(coll, k2), table);
    let e3 = groups_events(cfg, "commit"@, array_member(coll, k3), table);
    let e4 = groups_events(cfg, "review"@, array_member(coll, k4), table);
    lemma_all_listed_concat(cfg, e1, e2);
    lemma_all_listed_concat(cfg, e1 + e2, e3);
    lemma_all_listed_concat(cfg, e1 + e2 + e3, e4);
}

/// The threads a comment search answer lists, or none.
pub open spec fn search_threads(answer: JsonV) -> Seq<JsonV> {
    match json_get(answer, "data"@) {
        Some(d) => match json_get(d, "search"@) {
            Some(sr) => array_member(sr, "nodes"@),
            None => Seq::empty(),
        },
        None => Seq::empty(),
    }
}

/// The login of a comment's author, if the answer gives it.
pub open spec fn author_login(comment: JsonV) -> Option<Seq<char>> {
    match json_get(comment, "author"@) {
        Some(a) => str_member(a, "login"@),
        None => None,
    }
}

/// The event of a comment on `thread`, when `user` wrote it.
pub open spec fn comment_event(thread: JsonV, comment: JsonV, user: Seq<char>, table: Seq<(String, i64)>) -> Option<EventV> {
    if author_login(comment) == Some(user) {
        let repo = repo_name(thread);
        let title = text_field(thread, "title"@);
        Some(
            EventV {
                id: text_field(comment, "id"@),
                event_type: "comment"@,
                repo: repo,
                title: "Commented on "@ + title,
                url: text_field(comment, "url"@),
                occurred_at: text_field(comment, "createdAt"@),
                thread_id: thread_ref(repo, number_or(table, json_get(thread, "number"@), 0)),
                thread_title: title,
                thread_url: text_field(thread, "url"@),
                status: Seq::empty(),
            },
        )
    } else {
        None
    }
}

/// The comment nodes of a thread, or none.
pub open spec fn comments_of(thread: JsonV) -> Seq<JsonV> {
    match json_get(thread, "comments"@) {
        Some(c) => array_member(c, "nodes"@),
        None => Seq::empty(),
    }
}

/// The events of the comments of `thread` among `comments` that `user` wrote.
pub open spec fn thread_comment_events(thread: JsonV, comments: Seq<JsonV>, user: Seq<char>, table: Seq<(String, i64)>) -> Seq<EventV>
    decreases comments.len(),
{
    if comments.len() == 0 {
        Seq::empty()
    } else {
        let prev = thread_comment_events(thread, comments.drop_last(), user, table);
        match comment_event(thread, comments.last(), user, table) {
            Some(e) => prev.push(e),
            None => prev,
        }
    }
}

/// The events of the comments `user` wrote, thread after thread.
pub open spec fn threads_comment_events(threads: Seq<JsonV>, user: Seq<char>, table: Seq<(String, i64)>) -> Seq<EventV>
    decreases threads.len(),
{
    if threads.len() == 0 {
        Seq::empty()
    } else {
        threads_comment_events(threads.drop_last(), user, table) + thread_comment_events(
            threads.last(),
            comments_of(threads.last()),
            user,
            table,
        )
    }
}

fn comment_event_exec(thread: &Json, comment: &Json, user: &str, table: &[(String, i64)]) -> (r: Option<Event>)
    ensures
        r matches Some(e) ==> comment_event(thread@, comment@, user@, table@) == Some(e@),
        r is None ==> comment_event(thread@, comment@, user@, table@) is None,
{
    let login = match comment.get("author") {
        Some(a) => string_member(a, "login"),
        None => None,
    };
    let mine = match login {
        Some(l) => crate::text::same_text(l.as_str(), user),
        None => false,
    };
    if !mine {
        return None;
    }
    let repo = match thread.get("repository") {
        Some(r) => text_of(r, "nameWithOwner"),
        None => String::new(),
    };
    let thread_title = text_of(thread, "title");
    let number = number_member(table, thread, "number", 0);
    let mut title: Vec<char> = Vec::new();
    push_str(&mut title, "Commented on ");
    push_str(&mut title, thread_title.as_str());
    Some(
        Event {
            id: text_of(comment, "id"),
            event_type: "comment".to_owned(),
            repo: repo.clone(),
            title: string_of(&title),
            url: text_of(comment, "url"),
            occurred_at: text_of(comment, "createdAt"),
            thread_id: thread_ref_exec(repo.as_str(), number),
            thread_title: thread_title,
            thread_url: text_of(thread, "url"),
            status: String::new(),
        },
    )
}

/// The events of the comments that `user` wrote, from a comment search
/// answer: thread after thread, each thread's comments in order.
pub fn comment_events(answer: &Json, user: &str, table: &[(String, i64)]) -> (r: Vec<Event>)
    ensures
        event_views(r@) == threads_comment_events(search_threads(answer@), user@, table@),
{
    let empty: Vec<Json> = Vec::new();
    let ghost tv = search_threads(answer@);
    let threads: &Vec<Json> = match answer.get("data") {
        Some(d) => match d.get("search") {
            Some(sr) => array_of(sr, "nodes", &empty),
            None => {
                assert(json_views(empty@) =~= tv);
                &empty
            },
        },
        None => {
            assert(json_views(empty@) =~= tv);
            &empty
        },
    };
    let mut events: Vec<Event> = Vec::new();
    assert(tv.take(0) =~= Seq::<JsonV>::empty());
    assert(event_views(events@) =~= Seq::<EventV>::empty());
    let mut i: usize = 0;
    while i < threads.len()
        invariant
            i <= threads@.len(),
            json_views(threads@) == tv,
            event_views(events@) == threads_comment_events(tv.take(i as int), user@, table@),
        decreases threads@.len() - i,
    {
        let thread = &threads[i];
        let ghost t = tv[i as int];
        assert(thread@ == t);
        assert(tv.take(i + 1).drop_last() =~= tv.take(i as int));
        assert(tv.take(i + 1).last() == t);
        let ghost before = event_views(events@);
        let empty_c: Vec<Json> = Vec::new();
        let ghost cv = comments_of(t);
        let comments: &Vec<Json> = match thread.get("comments") {
            Some(c) => array_of(c, "nodes", &empty_c),
            None => {
                assert(json_views(empty_c@) =~= cv);
                &empty_c
            },
        };
        assert(cv.take(0) =~= Seq::<JsonV>::empty());
        assert(before + Seq::<EventV>::empty() =~= before);
        let mut k: usize = 0;
        while k < comments.len()
            invariant
                k <= comments@.len(),
                json_views(comments@) == cv,
                thread@ == t,
                event_views(events@) == before + thread_comment_events(t, cv.take(k as int), user@, table@),
            decreases comments@.len() - k,
        {
            assert(cv.take(k + 1).drop_last() =~= cv.take(k as int));
            assert(cv.take(k + 1).last() == comments@[k as int]@);
            match comment_event_exec(thread, &comments[k], user, table) {
                Some(e) => {
                    assert(event_views(events@.push(e)) =~= event_views(events@).push(e@));
                    events.push(e);
                },
                None => {},
            }
            assert(event_views(events@) =~= before + thread_comment_events(t, cv.take(k + 1), user@, table@));
            k += 1;
        }
        assert(cv.take(k as int) =~= cv);
        assert(event_views(events@) =~= threads_comment_events(tv.take(i + 1), user@, table@));
        i += 1;
    }
    assert(tv.take(i as int) =~= tv);
    events
}

} // verus!
