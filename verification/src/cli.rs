//! The command line: its commands, its flags and their defaults, and what
//! the commands decide between reading and writing files.
use vstd::prelude::*;
use crate::clock::{months_ago_rfc3339, months_before_result};
use crate::config::{parse_config, validate_config, validation, Config, ConfigV};
use crate::feed::{merge_events, merged_by_id, sort_events, timeline_sorted, Event, Feed};
use crate::text::same_text;
use crate::toml::string_views;

verus! {

/// How the program is called.
pub const USAGE: &'static str = "usage: btc-contribs <collect|render|validate|fixture> [--config PATH] [--feed PATH] [--state PATH] [--out PATH]";

/// The usage error.
pub fn usage() -> (r: Result<(), String>)
    ensures
        r matches Err(e) && e@ == USAGE@,
{
    Err(USAGE.to_owned())
}

/// The commands.
#[derive(Clone, Copy, Debug, PartialEq, Eq, Structural)]
pub enum Command {
    Collect,
    Render,
    Validate,
    Fixture,
}

/// The command a name stands for.
pub open spec fn command_of(name: Seq<char>) -> Option<Command> {
    if name == "collect"@ {
        Some(Command::Collect)
    } else if name == "render"@ {
        Some(Command::Render)
    } else if name == "validate"@ {
        Some(Command::Validate)
    } else if name == "fixture"@ {
        Some(Command::Fixture)
    } else {
        None
    }
}

/// The command named by the first argument; without one, or with a name
/// that is no command, the usage error.
pub fn parse_command(name: Option<&str>) -> (r: Result<Command, String>)
    ensures
        (match name {
            Some(n) => command_of(n@),
            None => None,
        }) matches Some(c) ==> r == Ok::<Command, String>(c),
        (match name {
            Some(n) => command_of(n@),
            None => None,
        }) is None ==> (r matches Err(e) && e@ == USAGE@),
{
    let n = match name {
        Some(n) => n,
        None => {
            return Err(USAGE.to_owned());
        },
    };
    if same_text(n, "collect") {
        Ok(Command::Collect)
    } else if same_text(n, "render") {
        Ok(Command::Render)
    } else if same_text(n, "validate") {
        Ok(Command::Validate)
    } else if same_text(n, "fixture") {
        Ok(Command::Fixture)
    } else {
        Err(USAGE.to_owned())
    }
}

/// The value after the first argument equal to `name`, if one follows it.
pub open spec fn flag_value(args: Seq<Seq<char>>, name: Seq<char>) -> Option<Seq<char>>
    decreases args.len(),
{
    if args.len() < 2 {
        None
    } else if args[0] == name {
        Some(args[1])
    } else {
        flag_value(args.drop_first(), name)
    }
}

/// The value given for the flag `name`: the argument after the first one
/// equal to `name`, if one follows it.
pub fn flag(args: &[String], name: &str) -> (r: Option<String>)
    ensures
        r matches Some(v) ==> flag_value(string_views(args@), name@) == Some(v@),
        r is None ==> flag_value(string_views(args@), name@) is None,
{
    let ghost av = string_views(args@);
    let mut i: usize = 0;
    assert(av.skip(0) =~= av);
    while i < args.len() && args.len() - i > 1
        invariant
            i <= args@.len(),
            av == string_views(args@),
            flag_value(av, name@) == flag_value(av.skip(i as int), name@),
        decreases args@.len() - i,
    {
        assert(av.skip(i as int)[0] == args@[i as int]@);
        assert(av.skip(i as int)[1] == args@[i + 1]@);
        if same_text(args[i].as_str(), name) {
            return Some(args[i + 1].clone());
        }
        assert(av.skip(i as int).drop_first() =~= av.skip(i + 1));
        i += 1;
    }
    None
}

/// The value of the flag `name`, or `default`.
pub open spec fn flag_or_text(args: Seq<Seq<char>>, name: Seq<char>, default: Seq<char>) -> Seq<char> {
    match flag_value(args, name) {
        Some(v) => v,
        None => default,
    }
}

/// The value given for the flag `name`, or `default` when there is none.
pub fn flag_or(args: &[String], name: &str, default: &str) -> (r: String)
    ensures
        r@ == flag_or_text(string_views(args@), name@, default@),
{
    match flag(args, name) {
        Some(v) => v,
        None => default.to_owned(),
    }
}

/// Whether a collection starts over: `--full` is among the arguments, or
/// the environment's setting for it is `1` or `true`.
pub fn full_run(args: &[String], env_full: Option<&str>) -> (r: bool)
    ensures
        r == (string_views(args@).contains("--full"@) || (env_full matches Some(v) && (v@ == "1"@
            || v@ == "true"@))),
{
    let ghost av = string_views(args@);
    let mut i: usize = 0;
    while i < args.len()
        invariant
            i <= args@.len(),
            av == string_views(args@),
            forall|k: int| 0 <= k < i ==> av[k] != "--full"@,
        decreases args@.len() - i,
    {
        if same_text(args[i].as_str(), "--full") {
            assert(av[i as int] == "--full"@);
            return true;
        }
        i += 1;
    }
    match env_full {
        Some(v) => same_text(v, "1") || same_text(v, "true"),
        None => false,
    }
}

/// The arguments of the `render` command that `fixture` runs.
pub open spec fn fixture_args(args: Seq<Seq<char>>) -> Seq<Seq<char>> {
    seq![
        "--config"@,
        flag_or_text(args, "--config"@, "config/site.toml"@),
        "--feed"@,
        flag_or_text(args, "--feed"@, "fixtures/feed.json"@),
        "--out"@,
        flag_or_text(args, "--out"@, "public"@),
    ]
}

/// The `fixture` command renders the fixture feed: the arguments it hands
/// to `render`, with the fixture feed as the default feed.
pub fn fixture_cmd(args: &[String]) -> (r: Vec<String>)
    ensures
        string_views(r@) == fixture_args(string_views(args@)),
{
    let config = flag_or(args, "--config", "config/site.toml");
    let feed = flag_or(args, "--feed", "fixtures/feed.json");
    let out = flag_or(args, "--out", "public");
    let mut r: Vec<String> = Vec::new();
    r.push("--config".to_owned());
    r.push(config);
    r.push("--feed".to_owned());
    r.push(feed);
    r.push("--out".to_owned());
    r.push(out);
    assert(string_views(r@) =~= fixture_args(string_views(args@)));
    r
}

/// What the `validate` command answers for a configuration text.
pub open spec fn validate_answer(raw: Seq<char>) -> Result<(), Seq<char>> {
    match parse_config(raw) {
        Ok(c) => validation(c),
        Err(e) => Err(e),
    }
}

/// The `validate` command on the configuration text it read: the error of
/// reading it, or the first rule it breaks.
pub fn validate_cmd(config_text: &str) -> (r: Result<(), String>)
    ensures
        r is Ok == validate_answer(config_text@) is Ok,
        r matches Err(e) ==> validate_answer(config_text@) == Err::<(), Seq<char>>(e@),
{
    let cfg = Config::parse(config_text)?;
    validate_config(&cfg)
}

/// Where a collection starts: the Unix epoch for a full run, else
/// `bootstrap_months` months of 31 days before now (`None` when that is out
/// of range).
pub fn collect_start(full: bool, months: i64) -> (r: Option<String>)
    ensures
        full ==> (r matches Some(t) && t@ == "1970-01-01T00:00:00Z"@),
        !full ==> exists|now: i64| #[trigger] months_before_result(now as int, months as int) == match r {
            Some(t) => Some(t@),
            None => None::<Seq<char>>,
        },
{
    if full {
        Some("1970-01-01T00:00:00Z".to_owned())
    } else {
        months_ago_rfc3339(months)
    }
}

/// Whether a collection goes on from the saved feed: when there is one and
/// the run is not a full one.
pub fn resume_from_state(state_exists: bool, full: bool) -> (r: bool)
    ensures
        r == (state_exists && !full),
{
    state_exists && !full
}

/// What follows a collection for the candidates it found: whether to write
/// the candidate report, and whether to update the candidate issue, which is
/// done only inside a repository's workflow.
pub fn candidate_steps(candidates: &Vec<String>, in_repository: bool) -> (r: (bool, bool))
    ensures
        r.0 == (candidates@.len() > 0),
        r.1 == (candidates@.len() > 0 && in_repository),
{
    let any = candidates.len() > 0;
    (any, any && in_repository)
}

/// Adds the collected events to a feed: the contributions, then the
/// comments, merged by id (a later event replaces an earlier one with its
/// id), then put in timeline order.
pub fn update_feed(feed: &mut Feed, contributions: Vec<Event>, comments: Vec<Event>)
    ensures
        final(feed).generated_at == old(feed).generated_at,
        final(feed).username == old(feed).username,
        exists|m: Seq<Event>|
            merged_by_id(old(feed).events@ + contributions@ + comments@, m)
                && #[trigger] m.to_multiset() == final(feed).events@.to_multiset(),
        timeline_sorted(final(feed).events@),
{
    let ghost e0 = feed.events@;
    merge_events(&mut feed.events, contributions);
    let ghost m1 = feed.events@;
    merge_events(&mut feed.events, comments);
    let ghost m2 = feed.events@;
    proof {
        crate::feed::lemma_merge_twice(e0, contributions@, comments@, m1, m2);
    }
    sort_events(&mut feed.events);
}

} // verus!
