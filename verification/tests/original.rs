use btc_contribs::config::Config;
use btc_contribs::feed::{merge_events, Event, Feed};
use btc_contribs::json::parse_json;
use btc_contribs::render::render_html;
use btc_contribs::toml::parse_toml_array;

const FIXTURE_FEED: &str = r#"{
  "generated_at": "2026-02-01T12:00:00Z",
  "username": "trevarj",
  "events": [
    {
      "id": "PR_kwDOA1",
      "event_type": "pull_request",
      "repo": "wizardsardine/bhwi",
      "title": "Add signer support",
      "url": "https://github.com/wizardsardine/bhwi/pull/12",
      "occurred_at": "2026-01-20T10:00:00Z",
      "thread_id": "wizardsardine/bhwi#12",
      "thread_title": "Add signer support",
      "thread_url": "https://github.com/wizardsardine/bhwi/pull/12",
      "status": "MERGED"
    },
    {
      "id": "IC_kwDOB2",
      "event_type": "comment",
      "repo": "bitcoin/bitcoin",
      "title": "Commented on Fix fee estimation",
      "url": "https://github.com/bitcoin/bitcoin/issues/3#issuecomment-1",
      "occurred_at": "2026-01-10T08:30:00Z",
      "thread_id": "bitcoin/bitcoin#3",
      "thread_title": "Fix fee estimation",
      "thread_url": "https://github.com/bitcoin/bitcoin/issues/3",
      "status": ""
    }
  ]
}
"#;

#[test]
fn parses_config_arrays() {
    let items = parse_toml_array(r#"["bitcoin", "hwi"]"#).unwrap();
    assert_eq!(items, vec!["bitcoin", "hwi"]);
}

#[test]
fn merges_by_event_id() {
    let mut existing = vec![Event {
        id: "a".into(),
        event_type: "issue".into(),
        repo: "o/r".into(),
        title: "old".into(),
        url: "u".into(),
        occurred_at: "2026-01-01T00:00:00Z".into(),
        thread_id: "t".into(),
        thread_title: "t".into(),
        thread_url: "u".into(),
        status: String::new(),
    }];
    let mut replacement = existing[0].clone();
    replacement.title = "new".into();
    merge_events(&mut existing, vec![replacement]);
    assert_eq!(existing.len(), 1);
    assert_eq!(existing[0].title, "new");
}

#[test]
fn feed_round_trip_fixture() {
    let feed = Feed::from_json_text(FIXTURE_FEED).unwrap();
    assert_eq!(feed.events.len(), 2);
    let reparsed = parse_json(&feed.to_json()).unwrap();
    assert_eq!(
        reparsed.get("username").and_then(|j| j.string()).map(|s| s.as_str()),
        Some("trevarj")
    );
}

#[test]
fn renders_static_page() {
    let cfg = Config {
        username: "trevarj".into(),
        title: "Bitcoin FOSS Contributions".into(),
        base_path: "/btc_foss/".into(),
        site_root: "https://trevs.site".into(),
        bootstrap_months: 5,
        allowlist: Vec::new(),
        keywords: vec!["bitcoin".into()],
        exclude: Vec::new(),
    };
    let feed = Feed::from_json_text(FIXTURE_FEED).unwrap();
    let html = render_html(&cfg, &feed);
    assert!(html.contains("feed.json"));
    assert!(html.contains("wizardsardine/bhwi"));
}
