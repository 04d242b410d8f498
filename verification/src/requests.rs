//! What is sent to GitHub and how its answers are first read: the GraphQL
//! request bodies, the check for an `errors` member, the candidate report
//! and the requests that keep the candidate issue up to date.
use vstd::prelude::*;
use crate::escape::{json_escape, json_escape_chars, json_escaped, short_date, short_date_text};
use crate::github::{number_or, str_member};
use crate::dates::{int_text, push_int};
use crate::json::{json_get, json_views, parse_json, parse_json_text, Json, JsonV};
use crate::text::{chars_of, push_chars, push_str, same_text, string_of};
use crate::toml::string_views;

verus! {

/// The GraphQL query for a user's contributions between two times.
pub const CONTRIBUTIONS_QUERY: &'static str = r#"
query($login:String!, $from:DateTime!, $to:DateTime!) {
  user(login:$login) {
    contributionsCollection(from:$from, to:$to) {
      pullRequestContributionsByRepository(maxRepositories:100) {
        repository { nameWithOwner description repositoryTopics(first:20) { nodes { topic { name } } } }
        contributions(first:100) { nodes { pullRequest { id number title url createdAt state closed merged } } }
      }
      issueContributionsByRepository(maxRepositories:100) {
        repository { nameWithOwner description repositoryTopics(first:20) { nodes { topic { name } } } }
        contributions(first:100) { nodes { issue { id number title url createdAt state closed } } }
      }
      commitContributionsByRepository(maxRepositories:100) {
        repository { nameWithOwner description repositoryTopics(first:20) { nodes { topic { name } } } }
        contributions(first:100) { nodes { commitCount occurredAt url } }
      }
      pullRequestReviewContributionsByRepository(maxRepositories:100) {
        repository { nameWithOwner description repositoryTopics(first:20) { nodes { topic { name } } } }
        contributions(first:100) { nodes { pullRequestReview { id url createdAt state pullRequest { number title url } } } }
      }
    }
  }
}
"#;

/// The GraphQL query that searches issues and pull requests with comments.
pub const COMMENT_SEARCH_QUERY: &'static str = r#"
query($query:String!) {
  search(query:$query, type:ISSUE, first:100) {
    nodes {
      ... on Issue {
        number title url
        repository { nameWithOwner }
        comments(first:100) { nodes { id url createdAt author { login } } }
      }
      ... on PullRequest {
        number title url
        repository { nameWithOwner }
        comments(first:100) { nodes { id url createdAt author { login } } }
      }
    }
  }
}
"#;

/// The title of the issue that lists candidate repositories.
pub const CANDIDATE_ISSUE_TITLE: &'static str = "Bitcoin FOSS repository candidates";

/// A JSON string literal holding `s`.
pub open spec fn quoted(s: Seq<char>) -> Seq<char> {
    "\""@ + json_escaped(s) + "\""@
}

fn push_quoted(out: &mut Vec<char>, s: &str)
    ensures
        final(out)@ == old(out)@ + quoted(s@),
{
    push_str(out, "\"");
    let cs = chars_of(s);
    let e = json_escape_chars(&cs);
    push_chars(out, &e);
    push_str(out, "\"");
    assert(out@ =~= old(out)@ + quoted(s@));
}

/// The body of the contributions request.
pub open spec fn contributions_body_text(login: Seq<char>, from: Seq<char>, to: Seq<char>) -> Seq<char> {
    "{\"query\":"@ + quoted(CONTRIBUTIONS_QUERY@) + ",\"variables\":{\"login\":"@ + quoted(login)
        + ",\"from\":"@ + quoted(from) + ",\"to\":"@ + quoted(to) + "}}"@
}

/// The JSON body that asks for the contributions of `login` from `from` to `to`.
pub fn contributions_body(login: &str, from: &str, to: &str) -> (r: String)
    ensures
        r@ == contributions_body_text(login@, from@, to@),
{
    let mut out: Vec<char> = Vec::new();
    push_str(&mut out, "{\"query\":");
    push_quoted(&mut out, CONTRIBUTIONS_QUERY);
    push_str(&mut out, ",\"variables\":{\"login\":");
    push_quoted(&mut out, login);
    push_str(&mut out, ",\"from\":");
    push_quoted(&mut out, from);
    push_str(&mut out, ",\"to\":");
    push_quoted(&mut out, to);
    push_str(&mut out, "}}");
    assert(out@ =~= contributions_body_text(login@, from@, to@));
    string_of(&out)
}

/// The search for the threads of `repo` that `user` commented on and that
/// were updated on or after the date of `from`.
pub open spec fn comment_search_text(repo: Seq<char>, user: Seq<char>, from: Seq<char>) -> Seq<char> {
    "repo:"@ + repo + " commenter:"@ + user + " updated:>="@ + short_date_text(from)
}

/// The body of a comment search request.
pub open spec fn comment_search_body_text(repo: Seq<char>, user: Seq<char>, from: Seq<char>) -> Seq<char> {
    "{\"query\":"@ + quoted(COMMENT_SEARCH_QUERY@) + ",\"variables\":{\"query\":"@ + quoted(
        comment_search_text(repo, user, from),
    ) + "}}"@
}

/// The JSON body that searches the threads of `repo` with comments by `user`
/// updated since the date of `from`.
pub fn comment_search_body(repo: &str, user: &str, from: &str) -> (r: String)
    ensures
        r@ == comment_search_body_text(repo@, user@, from@),
{
    let mut q: Vec<char> = Vec::new();
    push_str(&mut q, "repo:");
    push_str(&mut q, repo);
    push_str(&mut q, " commenter:");
    push_str(&mut q, user);
    push_str(&mut q, " updated:>=");
    let since = short_date(from);
    push_str(&mut q, since.as_str());
    let q = string_of(&q);
    let mut out: Vec<char> = Vec::new();
    push_str(&mut out, "{\"query\":");
    push_quoted(&mut out, COMMENT_SEARCH_QUERY);
    push_str(&mut out, ",\"variables\":{\"query\":");
    push_quoted(&mut out, q.as_str());
    push_str(&mut out, "}}");
    assert(out@ =~= comment_search_body_text(repo@, user@, from@));
    string_of(&out)
}

/// A GraphQL answer: the parsed text, or the parse error, or, when it has an
/// `errors` member, `prefix` followed by the whole text.
pub open spec fn graphql_answer(text: Seq<char>, prefix: Seq<char>) -> Result<JsonV, Seq<char>> {
    match parse_json_text(text) {
        Ok(v) => if json_get(v, "errors"@) is Some {
            Err(prefix + text)
        } else {
            Ok(v)
        },
        Err(e) => Err(e),
    }
}

fn read_answer(text: &str, prefix: &str) -> (r: Result<Json, String>)
    ensures
        r matches Ok(j) ==> graphql_answer(text@, prefix@) == Ok::<JsonV, Seq<char>>(j@),
        r matches Err(e) ==> graphql_answer(text@, prefix@) == Err::<JsonV, Seq<char>>(e@),
{
    let json = parse_json(text)?;
    if json.get("errors").is_some() {
        let mut out: Vec<char> = Vec::new();
        push_str(&mut out, prefix);
        push_str(&mut out, text);
        return Err(string_of(&out));
    }
    Ok(json)
}

/// Reads the answer to the contributions request.
pub fn read_contributions_answer(text: &str) -> (r: Result<Json, String>)
    ensures
        r matches Ok(j) ==> graphql_answer(text@, "GitHub GraphQL returned errors: "@) == Ok::<
            JsonV,
            Seq<char>,
        >(j@),
        r matches Err(e) ==> graphql_answer(text@, "GitHub GraphQL returned errors: "@) == Err::<
            JsonV,
            Seq<char>,
        >(e@),
{
    read_answer(text, "GitHub GraphQL returned errors: ")
}

/// Reads the answer to a comment search.
pub fn read_comment_search_answer(text: &str) -> (r: Result<Json, String>)
    ensures
        r matches Ok(j) ==> graphql_answer(text@, "GitHub comment search returned errors: "@)
            == Ok::<JsonV, Seq<char>>(j@),
        r matches Err(e) ==> graphql_answer(text@, "GitHub comment search returned errors: "@)
            == Err::<JsonV, Seq<char>>(e@),
{
    read_answer(text, "GitHub comment search returned errors: ")
}

/// One line of the candidate report.
pub open spec fn candidate_line(repo: Seq<char>) -> Seq<char> {
    "- [ ] `"@ + repo + "` - https://github.com/"@ + repo + "\n"@
}

/// The lines of the candidate report for `repos`, in order.
pub open spec fn candidate_lines(repos: Seq<Seq<char>>) -> Seq<char>
    decreases repos.len(),
{
    if repos.len() == 0 {
        Seq::empty()
    } else {
        candidate_lines(repos.drop_last()) + candidate_line(repos.last())
    }
}

/// The Markdown report of candidate repositories for `user`.
pub open spec fn candidate_report_text(user: Seq<char>, repos: Seq<Seq<char>>) -> Seq<char> {
    "# Bitcoin FOSS candidate repositories\n\n"@ + "Discovered from public GitHub activity for `"@ + user
        + "` using Bitcoin-only keywords.\n"@
        + "Curate candidates by adding approved repositories to `config/site.toml` `allowlist`.\n\n"@
        + candidate_lines(repos)
}

/// The Markdown report that lists the candidate repositories, one checkbox
/// line each, in the order given.
pub fn candidate_report(config: &crate::config::Config, candidates: &Vec<String>) -> (r: String)
    ensures
        r@ == candidate_report_text(config.username@, string_views(candidates@)),
{
    let mut out: Vec<char> = Vec::new();
    push_str(&mut out, "# Bitcoin FOSS candidate repositories\n\n");
    push_str(&mut out, "Discovered from public GitHub activity for `");
    push_str(&mut out, config.username.as_str());
    push_str(&mut out, "` using Bitcoin-only keywords.\n");
    push_str(&mut out, "Curate candidates by adding approved repositories to `config/site.toml` `allowlist`.\n\n");
    let ghost head = out@;
    let ghost rv = string_views(candidates@);
    assert(rv.take(0) =~= Seq::<Seq<char>>::empty());
    assert(head + candidate_lines(rv.take(0)) =~= head);
    let mut i: usize = 0;
    while i < candidates.len()
        invariant
            i <= candidates@.len(),
            rv == string_views(candidates@),
            out@ == head + candidate_lines(rv.take(i as int)),
        decreases candidates@.len() - i,
    {
        assert(rv.take(i + 1).drop_last() =~= rv.take(i as int));
        assert(rv.take(i + 1).last() == candidates@[i as int]@);
        push_str(&mut out, "- [ ] `");
        push_str(&mut out, candidates[i].as_str());
        push_str(&mut out, "` - https://github.com/");
        push_str(&mut out, candidates[i].as_str());
        push_str(&mut out, "\n");
        assert(out@ =~= head + candidate_lines(rv.take(i + 1)));
        i += 1;
    }
    assert(rv.take(i as int) =~= rv);
    assert(out@ =~= candidate_report_text(config.username@, rv));
    string_of(&out)
}

/// The url that lists the open candidate issues of `repo`.
pub open spec fn candidate_list_url_text(repo: Seq<char>) -> Seq<char> {
    "https://api.github.com/repos/"@ + repo + "/issues?state=open&labels=btc-foss-candidates"@
}

/// The url that lists the open issues of `repo` labelled as candidate lists.
pub fn candidate_list_url(repo: &str) -> (r: String)
    ensures
        r@ == candidate_list_url_text(repo@),
{
    let mut out: Vec<char> = Vec::new();
    push_str(&mut out, "https://api.github.com/repos/");
    push_str(&mut out, repo);
    push_str(&mut out, "/issues?state=open&labels=btc-foss-candidates");
    string_of(&out)
}

/// The number of the first issue of `issues` titled as the candidate list.
pub open spec fn first_candidate_issue(issues: Seq<JsonV>, table: Seq<(String, i64)>) -> Option<i64>
    decreases issues.len(),
{
    if issues.len() == 0 {
        None
    } else if str_member(issues[0], "title"@) == Some(CANDIDATE_ISSUE_TITLE@) {
        Some(number_or(table, json_get(issues[0], "number"@), 0))
    } else {
        first_candidate_issue(issues.drop_first(), table)
    }
}

/// The candidate issue in a list of issues, if the list is an array.
pub open spec fn candidate_issue_in(list: JsonV, table: Seq<(String, i64)>) -> Option<i64> {
    match list {
        JsonV::Array(items) => first_candidate_issue(items, table),
        _ => None,
    }
}

/// The number of the open candidate issue in the answer that lists issues:
/// the first one with the candidate title.
pub fn find_candidate_issue(list: &Json, table: &[(String, i64)]) -> (r: Option<i64>)
    ensures
        r == candidate_issue_in(list@, table@),
{
    let issues = match list.array() {
        Some(a) => a,
        None => {
            return None;
        },
    };
    let ghost iv = json_views(issues@);
    let mut i: usize = 0;
    assert(iv.skip(0) =~= iv);
    while i < issues.len()
        invariant
            i <= issues@.len(),
            iv == json_views(issues@),
            list@ == JsonV::Array(iv),
            candidate_issue_in(list@, table@) == first_candidate_issue(iv.skip(i as int), table@),
        decreases issues@.len() - i,
    {
        let issue = &issues[i];
        assert(iv.skip(i as int)[0] == issue@);
        let titled = match issue.get("title") {
            Some(t) => match t.string() {
                Some(s) => same_text(s.as_str(), CANDIDATE_ISSUE_TITLE),
                None => false,
            },
            None => false,
        };
        if titled {
            let n = match issue.get("number") {
                Some(v) => match v.number_text() {
                    Some(t) => match crate::github::lookup_number(table, t) {
                        Some(n) => n,
                        None => 0,
                    },
                    None => 0,
                },
                None => 0,
            };
            return Some(n);
        }
        assert(iv.skip(i as int).drop_first() =~= iv.skip(i + 1));
        i += 1;
    }
    None
}

/// The JSON body that writes the candidate issue.
pub open spec fn candidate_issue_payload_text(body: Seq<char>) -> Seq<char> {
    "{\"title\":"@ + quoted(CANDIDATE_ISSUE_TITLE@) + ",\"body\":"@ + quoted(body)
        + ",\"labels\":[\"btc-foss-candidates\"]}"@
}

/// The JSON body that sets the candidate issue's title, text and label.
pub fn candidate_issue_payload(body: &str) -> (r: String)
    ensures
        r@ == candidate_issue_payload_text(body@),
{
    let mut out: Vec<char> = Vec::new();
    push_str(&mut out, "{\"title\":");
    push_quoted(&mut out, CANDIDATE_ISSUE_TITLE);
    push_str(&mut out, ",\"body\":");
    push_quoted(&mut out, body);
    push_str(&mut out, ",\"labels\":[\"btc-foss-candidates\"]}");
    assert(out@ =~= candidate_issue_payload_text(body@));
    string_of(&out)
}

/// The method and url that write the candidate issue: a change of the
/// existing issue, or a new one.
pub open spec fn candidate_issue_target_text(repo: Seq<char>, existing: Option<i64>) -> (Seq<char>, Seq<char>) {
    match existing {
        Some(n) => ("PATCH"@, "https://api.github.com/repos/"@ + repo + "/issues/"@ + int_text(n as int)),
        None => ("POST"@, "https://api.github.com/repos/"@ + repo + "/issues"@),
    }
}

/// The method and url of the request that writes the candidate issue.
pub fn candidate_issue_target(repo: &str, existing: Option<i64>) -> (r: (String, String))
    ensures
        (r.0@, r.1@) == candidate_issue_target_text(repo@, existing),
{
    let mut url: Vec<char> = Vec::new();
    push_str(&mut url, "https://api.github.com/repos/");
    push_str(&mut url, repo);
    push_str(&mut url, "/issues");
    match existing {
        Some(n) => {
            push_str(&mut url, "/");
            push_int(&mut url, n);
            assert(url@ =~= "https://api.github.com/repos/"@ + repo@ + "/issues/"@ + int_text(n as int)) by {
                reveal_strlit("/issues");
                reveal_strlit("/");
                reveal_strlit("/issues/");
            }
            ("PATCH".to_owned(), string_of(&url))
        },
        None => ("POST".to_owned(), string_of(&url)),
    }
}

} // verus!
