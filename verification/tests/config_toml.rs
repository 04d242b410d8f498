use btc_contribs::cli::validate_cmd;
use btc_contribs::config::Config;
use btc_contribs::toml::{logical_toml_lines, parse_toml_array, parse_toml_string};

#[test]
fn logical_lines_join_arrays() {
    let lines = logical_toml_lines("a = [\n  \"x\",\n  \"y\"\n]\n\n  b = 1  \n");
    assert_eq!(lines, vec!["a = [ \"x\", \"y\" ]", "b = 1"]);
    // an array that never closes is kept as it was gathered
    assert_eq!(logical_toml_lines("k = [\n\"x\"\n"), vec!["k = [ \"x\""]);
    assert_eq!(logical_toml_lines("k = []\n"), vec!["k = []"]);
}

#[test]
fn toml_strings() {
    assert_eq!(parse_toml_string("  \"trevarj\" ").unwrap(), "trevarj");
    assert_eq!(parse_toml_string("\"a\\\"b\\nc\"").unwrap(), "a\"b\nc");
    assert_eq!(parse_toml_string("\"\"").unwrap(), "");
    assert_eq!(parse_toml_string("trevarj").unwrap_err(), "expected TOML string, got trevarj");
    assert_eq!(parse_toml_string("\"").unwrap_err(), "expected TOML string, got \"");
}

#[test]
fn toml_arrays() {
    assert_eq!(parse_toml_array("[]").unwrap(), Vec::<String>::new());
    assert_eq!(parse_toml_array("[ ]").unwrap(), Vec::<String>::new());
    assert_eq!(parse_toml_array("[x, \"y\"]").unwrap(), vec!["y"]);
    assert_eq!(parse_toml_array("[\"a\\\"b\", \"c\\\\d\"]").unwrap(), vec!["a\"b", "c\\d"]);
    assert_eq!(parse_toml_array("[\"a,b\", \"c\"]").unwrap(), vec!["a,b", "c"]);
    assert_eq!(parse_toml_array("bitcoin").unwrap_err(), "expected TOML string array, got bitcoin");
}

#[test]
fn config_reads_keys_and_defaults() {
    let raw = "# site\n[site]\nusername = \"trevarj\"\nkeywords = [\n  \"bitcoin\",\n  \"hwi\"\n]\nallowlist = [\"b/b\", \"a/a\", \"a/a\"]\nexclude = [\"x/y\"]\nbootstrap_months = 7 # months\nunknown = 3\n";
    let cfg = Config::parse(raw).unwrap();
    assert_eq!(cfg.username, "trevarj");
    assert_eq!(cfg.title, "Bitcoin FOSS Contributions");
    assert_eq!(cfg.base_path, "/btc_foss/");
    assert_eq!(cfg.site_root, "https://trevs.site");
    assert_eq!(cfg.bootstrap_months, 7);
    assert_eq!(cfg.keywords, vec!["bitcoin", "hwi"]);
    assert_eq!(cfg.allowlist, vec!["a/a", "b/b"]);
    assert_eq!(cfg.exclude, vec!["x/y"]);
}

#[test]
fn config_errors() {
    assert_eq!(Config::parse("title = \"x\"\n").unwrap_err(), "config/site.toml must set username");
    assert_eq!(
        Config::parse("username = \"u\"\nbootstrap_months = five\n").unwrap_err(),
        "invalid bootstrap_months"
    );
    assert_eq!(Config::parse("username = u\n").unwrap_err(), "expected TOML string, got u");
    assert_eq!(
        Config::parse("username = \"u\"\nkeywords = bitcoin\n").unwrap_err(),
        "expected TOML string array, got bitcoin"
    );
    // a `#` ends the line even inside quotes
    assert_eq!(Config::parse("title = \"a # b\"\n").unwrap_err(), "expected TOML string, got \"a");
    assert_eq!(Config::parse("username = \"u\"\nbootstrap_months = -3\n").unwrap().bootstrap_months, -3);
}

#[test]
fn validate_checks_base_path() {
    assert_eq!(validate_cmd("username = \"u\"\n"), Ok(()));
    assert_eq!(
        validate_cmd("username = \"u\"\nbase_path = \"btc\"\n").unwrap_err(),
        "base_path must start and end with '/'"
    );
    assert_eq!(
        validate_cmd("username = \"u\"\nbase_path = \"/btc\"\n").unwrap_err(),
        "base_path must start and end with '/'"
    );
    assert_eq!(validate_cmd("base_path = \"/\"\n").unwrap_err(), "config/site.toml must set username");
}
