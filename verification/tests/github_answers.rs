use btc_contribs::config::Config;
use btc_contribs::github::{
    any_keyword_in, comment_events, event_from_node, extract_contributions, lookup_number,
    repo_matches_keywords,
};
use btc_contribs::json::parse_json;

const GRAPH: &str = r#"{"data":{"user":{"contributionsCollection":{
 "pullRequestContributionsByRepository":[
   {"repository":{"nameWithOwner":"bitcoin/bitcoin","description":"Bitcoin Core","repositoryTopics":{"nodes":[]}},
    "contributions":{"nodes":[
      {"pullRequest":{"id":"PR1","number":42,"title":"Fix","url":"u1","createdAt":"2026-01-02T00:00:00Z","state":"MERGED"}},
      {"pullRequest":{"id":"PR2","title":"No url"}}]}},
   {"repository":{"nameWithOwner":"someone/BitcoinTools","description":null,"repositoryTopics":{"nodes":[{"topic":{"name":"wallet"}}]}},
    "contributions":{"nodes":[]}},
   {"repository":{"nameWithOwner":"spam/bitcoin-scam"},"contributions":{"nodes":[]}},
   {"repository":{"nameWithOwner":"other/tool"},"contributions":{"nodes":[]}},
   {"repository":{"nameWithOwner":""}}
 ],
 "issueContributionsByRepository":[
   {"repository":{"nameWithOwner":"bitcoin/bitcoin"},"contributions":{"nodes":[
      {"issue":{"id":"I1","number":7,"title":"Bug","url":"u2","createdAt":"2026-01-03T00:00:00Z"}}]}}],
 "commitContributionsByRepository":[
   {"repository":{"nameWithOwner":"bitcoin/bitcoin"},"contributions":{"nodes":[
      {"commitCount":3,"occurredAt":"2026-01-04T00:00:00Z","url":"u3"},
      {"occurredAt":"2026-01-05T00:00:00Z"}]}}],
 "pullRequestReviewContributionsByRepository":[
   {"repository":{"nameWithOwner":"bitcoin/bitcoin"},"contributions":{"nodes":[
      {"pullRequestReview":{"id":"R1","url":"u4","createdAt":"2026-01-06T00:00:00Z","state":"APPROVED",
        "pullRequest":{"number":99,"title":"Refactor","url":"u5"}}}]}}]
}}}}"#;

fn config() -> Config {
    Config {
        username: "trevarj".into(),
        title: "T".into(),
        base_path: "/".into(),
        site_root: "https://x".into(),
        bootstrap_months: 5,
        allowlist: vec!["bitcoin/bitcoin".into()],
        keywords: vec!["BITCOIN".into()],
        exclude: vec!["spam/bitcoin-scam".into()],
    }
}

fn table(j: &btc_contribs::json::Json) -> Vec<(String, i64)> {
    j.number_texts()
        .into_iter()
        .map(|t| {
            let v: i64 = t.parse().unwrap();
            (t, v)
        })
        .collect()
}

#[test]
fn extracts_allowlisted_events_and_candidates() {
    let graph = parse_json(GRAPH).unwrap();
    let numbers = table(&graph);
    let (events, candidates) = extract_contributions(&config(), &graph, &numbers).unwrap();
    assert_eq!(candidates, vec!["someone/BitcoinTools"]);
    assert_eq!(events.len(), 5);
    let pr = &events[0];
    assert_eq!(pr.id, "PR1");
    assert_eq!(pr.event_type, "pull_request");
    assert_eq!(pr.repo, "bitcoin/bitcoin");
    assert_eq!(pr.title, "Fix");
    assert_eq!(pr.url, "u1");
    assert_eq!(pr.occurred_at, "2026-01-02T00:00:00Z");
    assert_eq!(pr.thread_id, "bitcoin/bitcoin#42");
    assert_eq!(pr.thread_title, "Fix");
    assert_eq!(pr.thread_url, "u1");
    assert_eq!(pr.status, "MERGED");
    let issue = &events[1];
    assert_eq!(issue.event_type, "issue");
    assert_eq!(issue.thread_id, "bitcoin/bitcoin#7");
    assert_eq!(issue.status, "");
    let commits = &events[2];
    assert_eq!(commits.id, "bitcoin/bitcoin:commit:2026-01-04T00:00:00Z:3");
    assert_eq!(commits.title, "3 commits");
    assert_eq!(commits.thread_id, "bitcoin/bitcoin:commits:2026-01-04T00:00:00Z");
    assert_eq!(commits.thread_title, "Commits");
    assert_eq!(commits.thread_url, "u3");
    let one = &events[3];
    assert_eq!(one.id, "bitcoin/bitcoin:commit:2026-01-05T00:00:00Z:1");
    assert_eq!(one.title, "1 commit");
    assert_eq!(one.url, "");
    let review = &events[4];
    assert_eq!(review.id, "R1");
    assert_eq!(review.title, "Reviewed Refactor");
    assert_eq!(review.url, "u4");
    assert_eq!(review.thread_id, "bitcoin/bitcoin#99");
    assert_eq!(review.thread_title, "Refactor");
    assert_eq!(review.thread_url, "u5");
    assert_eq!(review.status, "APPROVED");
}

#[test]
fn missing_collection_is_an_error() {
    let graph = parse_json("{\"data\":{\"user\":null}}").unwrap();
    assert_eq!(
        extract_contributions(&config(), &graph, &[]).unwrap_err(),
        "missing contributionsCollection in GraphQL response"
    );
}

#[test]
fn numbers_missing_from_the_table_count_as_missing() {
    let node = parse_json("{\"pullRequest\":{\"id\":\"P\",\"number\":5,\"title\":\"t\",\"url\":\"u\",\"createdAt\":\"c\"}}").unwrap();
    let e = event_from_node("pull_request", "o/r", &node, &[]).unwrap();
    assert_eq!(e.thread_id, "o/r#0");
    let e = event_from_node("pull_request", "o/r", &node, &[("5".to_string(), 5)]).unwrap();
    assert_eq!(e.thread_id, "o/r#5");
    assert!(event_from_node("unknown", "o/r", &node, &[]).is_none());
    assert_eq!(lookup_number(&[("5".to_string(), 1), ("5".to_string(), 2)], &"5".to_string()), Some(1));
}

#[test]
fn keywords_match_case_aside() {
    let repo = parse_json("{\"nameWithOwner\":\"a/b\",\"description\":\"A Bitcoin wallet\"}").unwrap();
    assert!(repo_matches_keywords(Some(&repo), &["bitcoin".to_string()]));
    assert!(repo_matches_keywords(Some(&repo), &["B WALLET".to_string(), "zzz".to_string()]) == false);
    assert!(repo_matches_keywords(Some(&repo), &["N W".to_string()]));
    assert!(!repo_matches_keywords(None, &["bitcoin".to_string()]));
    assert!(!repo_matches_keywords(Some(&repo), &[]));
    // the empty keyword occurs in every text
    assert!(repo_matches_keywords(Some(&repo), &[String::new()]));
    assert!(any_keyword_in("abc", &["x".to_string(), "bc".to_string()]));
    assert!(!any_keyword_in("abc", &["B".to_string()]));
}

#[test]
fn comments_by_the_user() {
    let answer = parse_json(r#"{"data":{"search":{"nodes":[
      {"number":5,"title":"Fee bump","url":"t5","repository":{"nameWithOwner":"bitcoin/bitcoin"},
       "comments":{"nodes":[
         {"id":"C1","url":"c1","createdAt":"2026-01-07T00:00:00Z","author":{"login":"trevarj"}},
         {"id":"C2","url":"c2","createdAt":"2026-01-08T00:00:00Z","author":{"login":"other"}},
         {"id":"C3","url":"c3","createdAt":"2026-01-09T00:00:00Z","author":null}]}},
      {}
    ]}}}"#)
    .unwrap();
    let numbers = table(&answer);
    let events = comment_events(&answer, "trevarj", &numbers);
    assert_eq!(events.len(), 1);
    let c = &events[0];
    assert_eq!(c.id, "C1");
    assert_eq!(c.event_type, "comment");
    assert_eq!(c.repo, "bitcoin/bitcoin");
    assert_eq!(c.title, "Commented on Fee bump");
    assert_eq!(c.url, "c1");
    assert_eq!(c.occurred_at, "2026-01-07T00:00:00Z");
    assert_eq!(c.thread_id, "bitcoin/bitcoin#5");
    assert_eq!(c.thread_title, "Fee bump");
    assert_eq!(c.thread_url, "t5");
    assert_eq!(c.status, "");
}
