use btc_contribs::config::Config;
use btc_contribs::json::parse_json;
use btc_contribs::requests::{
    candidate_issue_payload, candidate_issue_target, candidate_list_url, candidate_report,
    comment_search_body, contributions_body, find_candidate_issue, read_comment_search_answer,
    read_contributions_answer, COMMENT_SEARCH_QUERY, CONTRIBUTIONS_QUERY,
};

#[test]
fn contributions_request_body() {
    let body = contributions_body("trevarj", "2026-01-01T00:00:00Z", "2026-02-01T00:00:00Z");
    assert!(body.starts_with("{\"query\":\"\\nquery($login:String!, $from:DateTime!, $to:DateTime!) {\\n"));
    assert!(body.ends_with(",\"variables\":{\"login\":\"trevarj\",\"from\":\"2026-01-01T00:00:00Z\",\"to\":\"2026-02-01T00:00:00Z\"}}"));
    let j = parse_json(&body).unwrap();
    assert_eq!(j.get("query").and_then(|q| q.string()).map(|s| s.as_str()), Some(CONTRIBUTIONS_QUERY));
}

#[test]
fn comment_search_request_body() {
    let body = comment_search_body("bitcoin/bitcoin", "trevarj", "2026-01-01T00:00:00Z");
    let j = parse_json(&body).unwrap();
    assert_eq!(j.get("query").and_then(|q| q.string()).map(|s| s.as_str()), Some(COMMENT_SEARCH_QUERY));
    assert_eq!(
        j.get_path(&["variables", "query"]).and_then(|q| q.string()).map(|s| s.as_str()),
        Some("repo:bitcoin/bitcoin commenter:trevarj updated:>=2026-01-01")
    );
    assert!(body.ends_with(",\"variables\":{\"query\":\"repo:bitcoin/bitcoin commenter:trevarj updated:>=2026-01-01\"}}"));
}

#[test]
fn answers_with_errors_are_refused() {
    assert_eq!(
        read_contributions_answer("{\"errors\":[]}").unwrap_err(),
        "GitHub GraphQL returned errors: {\"errors\":[]}"
    );
    assert_eq!(
        read_comment_search_answer("{\"errors\":null}").unwrap_err(),
        "GitHub comment search returned errors: {\"errors\":null}"
    );
    assert_eq!(read_contributions_answer("oops").unwrap_err(), "invalid JSON value");
    assert!(read_comment_search_answer("{\"data\":{}}").unwrap().get("data").is_some());
}

#[test]
fn candidate_report_lists_repositories() {
    let cfg = Config {
        username: "trevarj".into(),
        title: "T".into(),
        base_path: "/".into(),
        site_root: "s".into(),
        bootstrap_months: 5,
        allowlist: Vec::new(),
        keywords: Vec::new(),
        exclude: Vec::new(),
    };
    let report = candidate_report(&cfg, &vec!["a/b".to_string(), "c/d".to_string()]);
    assert_eq!(
        report,
        "# Bitcoin FOSS candidate repositories\n\nDiscovered from public GitHub activity for `trevarj` using Bitcoin-only keywords.\nCurate candidates by adding approved repositories to `config/site.toml` `allowlist`.\n\n- [ ] `a/b` - https://github.com/a/b\n- [ ] `c/d` - https://github.com/c/d\n"
    );
}

#[test]
fn candidate_issue_requests() {
    assert_eq!(
        candidate_list_url("o/r"),
        "https://api.github.com/repos/o/r/issues?state=open&labels=btc-foss-candidates"
    );
    let list = parse_json("[{\"title\":\"Other\",\"number\":1},{\"title\":\"Bitcoin FOSS repository candidates\",\"number\":8},{\"title\":\"Bitcoin FOSS repository candidates\",\"number\":9}]").unwrap();
    let numbers = vec![("1".to_string(), 1), ("8".to_string(), 8), ("9".to_string(), 9)];
    assert_eq!(find_candidate_issue(&list, &numbers), Some(8));
    assert_eq!(find_candidate_issue(&parse_json("{}").unwrap(), &numbers), None);
    assert_eq!(find_candidate_issue(&parse_json("[{\"title\":\"Bitcoin FOSS repository candidates\"}]").unwrap(), &numbers), Some(0));
    assert_eq!(
        candidate_issue_payload("x\ny"),
        "{\"title\":\"Bitcoin FOSS repository candidates\",\"body\":\"x\\ny\",\"labels\":[\"btc-foss-candidates\"]}"
    );
    assert_eq!(
        candidate_issue_target("o/r", Some(8)),
        ("PATCH".to_string(), "https://api.github.com/repos/o/r/issues/8".to_string())
    );
    assert_eq!(
        candidate_issue_target("o/r", None),
        ("POST".to_string(), "https://api.github.com/repos/o/r/issues".to_string())
    );
}
