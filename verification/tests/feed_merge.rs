use btc_contribs::cli::update_feed;
use btc_contribs::feed::{merge_events, sort_events, Event, Feed};

fn ev(id: &str, title: &str, at: &str, thread: &str) -> Event {
    Event {
        id: id.into(),
        event_type: "issue".into(),
        repo: "o/r".into(),
        title: title.into(),
        url: "u".into(),
        occurred_at: at.into(),
        thread_id: thread.into(),
        thread_title: "t".into(),
        thread_url: "tu".into(),
        status: String::new(),
    }
}

#[test]
fn merge_keeps_last_event_per_id_in_id_order() {
    let mut existing = vec![ev("b", "b0", "1", "t"), ev("a", "a0", "1", "t")];
    merge_events(&mut existing, vec![ev("a", "a1", "2", "t"), ev("c", "c0", "3", "t"), ev("a", "a2", "4", "t")]);
    let ids: Vec<&str> = existing.iter().map(|e| e.id.as_str()).collect();
    assert_eq!(ids, vec!["a", "b", "c"]);
    assert_eq!(existing[0].title, "a2");
    assert_eq!(existing[1].title, "b0");
    // merging the same events again changes nothing
    let again = existing.clone();
    merge_events(&mut existing, again.clone());
    assert_eq!(existing, again);
}

#[test]
fn sort_puts_latest_first_then_by_id() {
    let mut events = vec![
        ev("b", "", "2026-01-01T00:00:00Z", "t"),
        ev("c", "", "2026-03-01T00:00:00Z", "t"),
        ev("a", "", "2026-01-01T00:00:00Z", "t"),
    ];
    sort_events(&mut events);
    let ids: Vec<&str> = events.iter().map(|e| e.id.as_str()).collect();
    assert_eq!(ids, vec!["c", "a", "b"]);
}

#[test]
fn update_merges_then_sorts() {
    let mut feed = Feed {
        generated_at: "g".into(),
        username: "u".into(),
        events: vec![ev("a", "old", "2026-01-01T00:00:00Z", "t")],
    };
    update_feed(
        &mut feed,
        vec![ev("a", "new", "2026-01-02T00:00:00Z", "t"), ev("b", "b", "2026-01-03T00:00:00Z", "t")],
        vec![ev("b", "comment wins", "2026-01-04T00:00:00Z", "t"), ev("c", "c", "2026-01-01T00:00:00Z", "t")],
    );
    let got: Vec<(&str, &str)> = feed.events.iter().map(|e| (e.id.as_str(), e.title.as_str())).collect();
    assert_eq!(got, vec![("b", "comment wins"), ("a", "new"), ("c", "c")]);
    assert_eq!(feed.generated_at, "g");
}

#[test]
fn feed_json_text() {
    let empty = Feed { generated_at: "g".into(), username: "u".into(), events: Vec::new() };
    assert_eq!(
        empty.to_json(),
        "{\n  \"generated_at\": \"g\",\n  \"username\": \"u\",\n  \"events\": [\n\n  ]\n}\n"
    );
    let one = Feed {
        generated_at: "g".into(),
        username: "u\"".into(),
        events: vec![ev("a", "x\ny", "at", "t")],
    };
    assert_eq!(
        one.to_json(),
        "{\n  \"generated_at\": \"g\",\n  \"username\": \"u\\\"\",\n  \"events\": [\n    {\n      \"id\": \"a\",\n      \"event_type\": \"issue\",\n      \"repo\": \"o/r\",\n      \"title\": \"x\\ny\",\n      \"url\": \"u\",\n      \"occurred_at\": \"at\",\n      \"thread_id\": \"t\",\n      \"thread_title\": \"t\",\n      \"thread_url\": \"tu\",\n      \"status\": \"\"\n    }\n  ]\n}\n"
    );
}

#[test]
fn feed_reads_back_its_own_text() {
    let feed = Feed {
        generated_at: "2026-02-01T00:00:00Z".into(),
        username: "tr\tev".into(),
        events: vec![ev("a", "quote \" and \\ and \u{1}", "1", "t"), ev("b", "é", "2", "s")],
    };
    let back = Feed::from_json_text(&feed.to_json()).unwrap();
    assert_eq!(back.generated_at, feed.generated_at);
    assert_eq!(back.username, feed.username);
    assert_eq!(back.events, feed.events);
}

#[test]
fn feed_reading_fills_missing_fields() {
    let f = Feed::from_json_text("{\"events\": [{\"id\": \"a\", \"title\": 3}, 7]}").unwrap();
    assert_eq!(f.generated_at, "");
    assert_eq!(f.events.len(), 2);
    assert_eq!(f.events[0].id, "a");
    assert_eq!(f.events[0].title, "");
    assert_eq!(f.events[1].id, "");
    assert_eq!(Feed::from_json_text("[1]").unwrap().events.len(), 0);
    assert_eq!(Feed::from_json_text("{").unwrap_err(), "expected \"");
}

#[test]
fn merging_twice_is_merging_once() {
    let a = vec![ev("x", "x0", "1", "t"), ev("y", "y0", "1", "t")];
    let b = vec![ev("y", "y1", "2", "t"), ev("z", "z0", "2", "t")];
    let c = vec![ev("x", "x2", "3", "t"), ev("z", "z2", "3", "t")];
    let mut twice = a.clone();
    merge_events(&mut twice, b.clone());
    merge_events(&mut twice, c.clone());
    let mut once = a.clone();
    let mut rest = b.clone();
    rest.extend(c);
    merge_events(&mut once, rest);
    assert_eq!(twice, once);
    let titles: Vec<&str> = once.iter().map(|e| e.title.as_str()).collect();
    assert_eq!(titles, vec!["x2", "y1", "z2"]);
}

#[test]
fn sort_keeps_the_order_of_events_it_cannot_tell_apart() {
    let mut events = vec![
        ev("a", "first", "2026-01-01T00:00:00Z", "t"),
        ev("b", "", "2026-02-01T00:00:00Z", "t"),
        ev("a", "second", "2026-01-01T00:00:00Z", "t"),
    ];
    sort_events(&mut events);
    let got: Vec<(&str, &str)> = events.iter().map(|e| (e.id.as_str(), e.title.as_str())).collect();
    assert_eq!(got, vec![("b", ""), ("a", "first"), ("a", "second")]);
}
