use btc_contribs::cli::{
    candidate_steps, resume_from_state,
    collect_start, fixture_cmd, flag, flag_or, full_run, parse_command, usage, Command, USAGE,
};

fn args(v: &[&str]) -> Vec<String> {
    v.iter().map(|s| s.to_string()).collect()
}

#[test]
fn usage_message() {
    assert_eq!(usage().unwrap_err(), USAGE);
    assert_eq!(
        USAGE,
        "usage: btc-contribs <collect|render|validate|fixture> [--config PATH] [--feed PATH] [--state PATH] [--out PATH]"
    );
}

#[test]
fn commands() {
    assert_eq!(parse_command(Some("collect")), Ok(Command::Collect));
    assert_eq!(parse_command(Some("render")), Ok(Command::Render));
    assert_eq!(parse_command(Some("validate")), Ok(Command::Validate));
    assert_eq!(parse_command(Some("fixture")), Ok(Command::Fixture));
    assert_eq!(parse_command(Some("Render")).unwrap_err(), USAGE);
    assert_eq!(parse_command(None).unwrap_err(), USAGE);
}

#[test]
fn flags() {
    assert_eq!(flag(&args(&["--config", "a", "--config", "b"]), "--config"), Some("a".to_string()));
    assert_eq!(flag(&args(&["--config", "a", "--out"]), "--out"), None);
    assert_eq!(flag(&args(&["--feed", "--feed", "v"]), "--feed"), Some("--feed".to_string()));
    assert_eq!(flag(&args(&[]), "--feed"), None);
    assert_eq!(flag_or(&args(&["x"]), "--out", "public"), "public");
}

#[test]
fn full_runs() {
    assert!(full_run(&args(&["--out", "x", "--full"]), None));
    assert!(full_run(&args(&[]), Some("true")));
    assert!(full_run(&args(&[]), Some("1")));
    assert!(!full_run(&args(&[]), Some("yes")));
    assert!(!full_run(&args(&["--fully"]), None));
}

#[test]
fn fixture_renders_the_fixture_feed() {
    assert_eq!(
        fixture_cmd(&args(&[])),
        args(&["--config", "config/site.toml", "--feed", "fixtures/feed.json", "--out", "public"])
    );
    assert_eq!(
        fixture_cmd(&args(&["--out", "site", "--feed", "f.json"])),
        args(&["--config", "config/site.toml", "--feed", "f.json", "--out", "site"])
    );
}

#[test]
fn collection_start() {
    assert_eq!(collect_start(true, 5), Some("1970-01-01T00:00:00Z".to_string()));
    assert_eq!(collect_start(false, i64::MAX), None);
    assert!(collect_start(false, 5).is_some());
}

#[test]
fn collection_steps() {
    assert!(resume_from_state(true, false));
    assert!(!resume_from_state(true, true));
    assert!(!resume_from_state(false, false));
    assert_eq!(candidate_steps(&vec![], true), (false, false));
    assert_eq!(candidate_steps(&vec!["a/b".to_string()], false), (true, false));
    assert_eq!(candidate_steps(&vec!["a/b".to_string()], true), (true, true));
}
