# btc_contribs

Collects a GitHub user's public contributions to allowlisted Bitcoin
repositories into a JSON feed, and renders the feed as a static page with
filters by repository, kind and year.

The library under `src/` is verified with Verus; `app/main.rs` is the
command-line program around it (files, environment, clock, and `curl`
calls to GitHub).

- `text`, `escape`: character-level text operations, JSON and HTML escaping.
- `toml`, `config`: the configuration file and its checks.
- `json`: a JSON reader that keeps numbers as the text they were written with.
- `feed`: events, merging by id, timeline order, and the feed's JSON text.
- `roundtrip`: reading back what the feed and the escaper write.
- `github`, `requests`: the GitHub requests and what is read from the answers.
- `render`: the static page.
- `dates`, `clock`: RFC 3339 timestamps and the current time.
- `cli`: commands, flags and the decisions the commands make.
- `sorted`: ordered sets of texts.
