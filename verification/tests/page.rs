use btc_contribs::config::Config;
use btc_contribs::feed::{Event, Feed};
use btc_contribs::render::{render_css, render_html, render_js, select, stat, SITE_FOOTER, SITE_HEADER};

fn cfg() -> Config {
    Config {
        username: "u".into(),
        title: "T & co".into(),
        base_path: "/btc_foss/".into(),
        site_root: "s".into(),
        bootstrap_months: 5,
        allowlist: Vec::new(),
        keywords: Vec::new(),
        exclude: Vec::new(),
    }
}

fn page_event(id: &str, kind: &str, repo: &str, at: &str, thread: &str) -> Event {
    Event {
        id: id.into(),
        event_type: kind.into(),
        repo: repo.into(),
        title: format!("title {id}"),
        url: format!("https://e/{id}"),
        occurred_at: at.into(),
        thread_id: thread.into(),
        thread_title: format!("thread {thread}"),
        thread_url: format!("https://t/{thread}"),
        status: String::new(),
    }
}

#[test]
fn stat_and_select_lines() {
    let mut out = String::new();
    stat(&mut out, "pull_request", 3);
    assert_eq!(out, "<div><strong>3</strong><span>pull request</span></div>\n");
    let mut out = String::new();
    select(&mut out, "repo", "Repository", &["a&b".to_string(), "c\"d".to_string()]);
    assert_eq!(
        out,
        "<label>Repository<select name=\"repo\"><option value=\"\">All</option>\n<option value=\"a&amp;b\">a&amp;b</option>\n<option value=\"c&quot;d\">c\"d</option>\n</select></label>\n"
    );
}

#[test]
fn empty_feed_page() {
    let feed = Feed { generated_at: "g".into(), username: "u".into(), events: Vec::new() };
    let expected = [
        "<!DOCTYPE html>",
        "<html lang=\"en\"><head><meta charset=\"UTF-8\">",
        "<meta name=\"viewport\" content=\"width=device-width, initial-scale=1\">",
        "<link rel=\"shortcut icon\" type=\"image/png\" href=\"/favicon.png\">",
        "<link rel=\"stylesheet\" href=\"/static/style.css\">",
        "<link rel=\"stylesheet\" href=\"/btc_foss/btc_foss.css\">",
        "<title>T &amp; co</title></head><body>",
        SITE_HEADER,
        "<main class=\"btc-page\">",
        "<h1>T &amp; co</h1>",
        "<p class=\"btc-muted\">Public GitHub activity for <a href=\"https://github.com/u\">u</a>. Updated <time datetime=\"g\">g</time>. <a href=\"/btc_foss/feed.json\">feed.json</a></p>",
        "<section class=\"btc-stats\" aria-label=\"Contribution summary\">",
        "<div><strong>0</strong><span>Events</span></div>",
        "<div><strong>0</strong><span>Repos</span></div>",
        "</section>",
        "<form class=\"btc-filters\" id=\"btc-filters\">",
        "<label>Repository<select name=\"repo\"><option value=\"\">All</option>",
        "</select></label>",
        "<label>Type<select name=\"type\"><option value=\"\">All</option>",
        "</select></label>",
        "<label>Year<select name=\"year\"><option value=\"\">All</option>",
        "</select></label>",
        "<a class=\"btc-reset\" href=\"/btc_foss/\">Reset</a></form>",
        "<div class=\"btc-timeline\" id=\"btc-timeline\">",
        SITE_FOOTER,
        "<script defer src=\"/btc_foss/btc_foss.js\"></script>",
        "</body></html>",
    ]
    .iter()
    .map(|l| format!("{l}\n"))
    .collect::<String>();
    assert_eq!(render_html(&cfg(), &feed), expected);
}

#[test]
fn threads_are_grouped_and_ordered() {
    let feed = Feed {
        generated_at: "g".into(),
        username: "u".into(),
        events: vec![
            page_event("e1", "pull_request", "b/b", "2025-01-01T00:00:00Z", "t1"),
            page_event("e2", "comment", "a/a", "2026-01-05T00:00:00Z", "t2"),
            page_event("e3", "review", "b/b", "2026-01-09T00:00:00Z", "t1"),
        ],
    };
    let page = render_html(&cfg(), &feed);
    // the thread whose first event is later comes first
    let t1 = page.find("data-repo=\"b/b\"").unwrap();
    let t2 = page.find("data-repo=\"a/a\"").unwrap();
    assert!(t2 < t1);
    assert!(page.contains("<details class=\"btc-thread\" open data-repo=\"b/b\" data-type=\"pull_request\" data-year=\"2025\">\n<summary><span class=\"btc-icon\">\u{2442}</span><span><a href=\"https://t/t1\">thread t1</a><small>b/b \u{b7} 2 items</small></span></summary>\n<ol>\n"));
    assert!(page.contains("<small>a/a \u{b7} 1 item</small>"));
    assert!(page.contains("<li data-type=\"review\"><time datetime=\"2026-01-09T00:00:00Z\">2026-01-09</time> <span class=\"btc-kind\">review</span> <a href=\"https://e/e3\">title e3</a></li>\n"));
    assert!(page.contains("<div><strong>3</strong><span>Events</span></div>\n<div><strong>2</strong><span>Repos</span></div>\n<div><strong>1</strong><span>comment</span></div>\n<div><strong>1</strong><span>pull request</span></div>\n<div><strong>1</strong><span>review</span></div>\n"));
    // years newest first
    let y26 = page.find("<option value=\"2026\">").unwrap();
    let y25 = page.find("<option value=\"2025\">").unwrap();
    assert!(y26 < y25);
    // repositories in order
    let a = page.find("<option value=\"a/a\">").unwrap();
    let b = page.find("<option value=\"b/b\">").unwrap();
    assert!(a < b);
}

#[test]
fn assets() {
    assert!(render_css().starts_with(".btc-page { padding-top: var(--space-lg); }\n"));
    assert!(render_css().ends_with("}\n"));
    assert!(render_js().starts_with("(function () {\n"));
    assert!(render_js().ends_with("})();\n"));
}
