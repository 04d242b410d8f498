use btc_contribs::escape::{
    html, html_attr, icon, json_escape, short_date, status_badge, unescape_json_string,
};

#[test]
fn json_escape_writes_short_and_unicode_escapes() {
    assert_eq!(json_escape("a\"b\\c\nd\te\r"), "a\\\"b\\\\c\\nd\\te\\r");
    assert_eq!(json_escape("\u{1}\u{1f}\u{7f}\u{9f}"), "\\u0001\\u001f\\u007f\\u009f");
    assert_eq!(json_escape("é/ü"), "é/ü");
    assert_eq!(json_escape(""), "");
}

#[test]
fn unescape_replaces_in_order() {
    assert_eq!(unescape_json_string("a\\\"b\\nc\\\\d"), "a\"b\nc\\d");
    // the `\\` pass comes last, so `\\n` reads as a backslash and a newline
    assert_eq!(unescape_json_string("\\\\n"), "\\\n");
    assert_eq!(unescape_json_string("\\t"), "\\t");
}

#[test]
fn html_escapes_markup() {
    assert_eq!(html("<a href=\"x\">&</a>"), "&lt;a href=\"x\"&gt;&amp;&lt;/a&gt;");
    assert_eq!(html_attr("<a href=\"x\">&</a>"), "&lt;a href=&quot;x&quot;&gt;&amp;&lt;/a&gt;");
    assert_eq!(html("&lt;"), "&amp;lt;");
}

#[test]
fn short_date_takes_ten_bytes() {
    assert_eq!(short_date("2026-01-20T10:00:00Z"), "2026-01-20");
    assert_eq!(short_date("2026"), "2026");
    assert_eq!(short_date("2026-01-20"), "2026-01-20");
    // ten bytes end inside `é`: the whole text is kept
    assert_eq!(short_date("aaaaaaaaaéb"), "aaaaaaaaaéb");
    assert_eq!(short_date("aaaaaaaaéb"), "aaaaaaaaé");
}

#[test]
fn status_badge_and_icons() {
    assert_eq!(status_badge(""), "");
    assert_eq!(status_badge("MERGED"), " <span class=\"btc-status\">MERGED</span>");
    assert_eq!(status_badge("<x>"), " <span class=\"btc-status\">&lt;x&gt;</span>");
    assert_eq!(icon("pull_request"), "\u{2442}");
    assert_eq!(icon("review"), "\u{2713}");
    assert_eq!(icon("commit"), "\u{25cf}");
    assert_eq!(icon("comment"), "\u{21a9}");
    assert_eq!(icon("issue"), "!");
    assert_eq!(icon("other"), "\u{2022}");
}

#[test]
fn escaped_strings_read_back() {
    for s in ["", "plain", "q\"b\\s/", "tab\tnl\ncr\r", "\u{0}\u{1f}\u{7f}\u{85}", "é\u{2442}"] {
        let text = format!("\"{}\"", json_escape(s));
        let j = btc_contribs::json::parse_json(&text).unwrap();
        assert_eq!(j.string().map(|t| t.as_str()), Some(s));
    }
}
