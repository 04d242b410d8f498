//! The site configuration: its fields, how a configuration text is read,
//! and the checks `validate` makes.
use vstd::prelude::*;
use crate::sorted::{sorted_set, strictly_sorted};
use crate::text::{
    chars_equal_str, chars_of, find_char, first_index_of, lemma_first_index_of, slice_chars,
    string_of, trim, trim_chars,
};
use crate::toml::{
    char_views, logical_lines, logical_lines_chars, parse_toml_array_chars,
    parse_toml_string_chars, string_views, strings_of, toml_array, toml_string,
};

verus! {

/// The site configuration. `allowlist` and `exclude` are sets, kept in
/// increasing order.
#[derive(Clone, Debug)]
pub struct Config {
    pub username: String,
    pub title: String,
    pub base_path: String,
    pub site_root: String,
    pub bootstrap_months: i64,
    pub allowlist: Vec<String>,
    pub keywords: Vec<String>,
    pub exclude: Vec<String>,
}

/// The content of a configuration.
pub struct ConfigV {
    pub username: Seq<char>,
    pub title: Seq<char>,
    pub base_path: Seq<char>,
    pub site_root: Seq<char>,
    pub bootstrap_months: i64,
    pub allowlist: Set<Seq<char>>,
    pub keywords: Seq<Seq<char>>,
    pub exclude: Set<Seq<char>>,
}

impl Config {
    pub open spec fn view(&self) -> ConfigV {
        ConfigV {
            username: self.username@,
            title: self.title@,
            base_path: self.base_path@,
            site_root: self.site_root@,
            bootstrap_months: self.bootstrap_months,
            allowlist: string_views(self.allowlist@).to_set(),
            keywords: string_views(self.keywords@),
            exclude: string_views(self.exclude@).to_set(),
        }
    }

    /// The sets are held in increasing order without repetition.
    pub open spec fn wf(&self) -> bool {
        &&& strictly_sorted(string_views(self.allowlist@))
        &&& strictly_sorted(string_views(self.exclude@))
    }
}

/// The configuration before any line is read.
pub open spec fn config_defaults() -> ConfigV {
    ConfigV {
        username: Seq::empty(),
        title: "Bitcoin FOSS Contributions"@,
        base_path: "/btc_foss/"@,
        site_root: "https://trevs.site"@,
        bootstrap_months: 5,
        allowlist: Set::empty(),
        keywords: Seq::empty(),
        exclude: Set::empty(),
    }
}

/// Whether `c` is an ASCII digit.
pub open spec fn is_digit(c: char) -> bool {
    '0' <= c && c <= '9'
}

/// The value of a run of decimal digits.
pub open spec fn digits_value(d: Seq<char>) -> int
    decreases d.len(),
{
    if d.len() == 0 {
        0
    } else {
        10 * digits_value(d.drop_last()) + ((d.last() as int) - ('0' as int))
    }
}

/// `s` without a leading sign.
pub open spec fn unsigned_part(s: Seq<char>) -> Seq<char> {
    if s.len() > 0 && (s[0] == '-' || s[0] == '+') {
        s.drop_first()
    } else {
        s
    }
}

/// Every character of `d` is an ASCII digit.
pub open spec fn all_digits(d: Seq<char>) -> bool {
    forall|i: int| 0 <= i < d.len() ==> is_digit(#[trigger] d[i])
}

/// What `i64::from_str` accepts: an optional sign, then one or more ASCII
/// digits, with a value that fits in an `i64`.
pub open spec fn parse_i64_text(s: Seq<char>) -> Option<i64> {
    let neg = s.len() > 0 && s[0] == '-';
    let d = unsigned_part(s);
    if d.len() == 0 || !all_digits(d) {
        None
    } else {
        let v = if neg {
            -digits_value(d)
        } else {
            digits_value(d)
        };
        if i64::MIN <= v <= i64::MAX {
            Some(v as i64)
        } else {
            None
        }
    }
}

proof fn lemma_parse_i64_nondigit(s: Seq<char>, k: int)
    requires
        0 <= k < unsigned_part(s).len(),
        !is_digit(unsigned_part(s)[k]),
    ensures
        parse_i64_text(s) is None,
{
}

proof fn lemma_digits_value_nonneg(d: Seq<char>)
    requires
        forall|i: int| 0 <= i < d.len() ==> is_digit(#[trigger] d[i]),
    ensures
        0 <= digits_value(d),
    decreases d.len(),
{
    if d.len() > 0 {
        assert(is_digit(d[d.len() - 1]));
        lemma_digits_value_nonneg(d.drop_last());
    }
}

proof fn lemma_digits_value_monotonic(d: Seq<char>, j: int, k: int)
    requires
        0 <= j <= k <= d.len(),
        forall|i: int| 0 <= i < d.len() ==> is_digit(#[trigger] d[i]),
    ensures
        0 <= digits_value(d.take(j)) <= digits_value(d.take(k)),
    decreases k - j,
{
    if j < k {
        lemma_digits_value_monotonic(d, j, k - 1);
        assert(d.take(k).drop_last() =~= d.take(k - 1));
        assert(d.take(k).last() == d[k - 1]);
        assert(is_digit(d[k - 1]));
    } else {
        lemma_digits_value_nonneg(d.take(j));
    }
}

/// Reads a decimal `i64` as `i64::from_str` does.
pub fn parse_i64_chars(s: &[char]) -> (r: Option<i64>)
    ensures
        r == parse_i64_text(s@),
{
    let neg = s.len() > 0 && s[0] == '-';
    let start: usize = if s.len() > 0 && (s[0] == '-' || s[0] == '+') {
        1
    } else {
        0
    };
    let ghost d = unsigned_part(s@);
    assert(d =~= s@.skip(start as int));
    if start == s.len() {
        return None;
    }
    // the magnitude bound: 2^63 for a negative value, 2^63 - 1 otherwise
    let limit: u64 = if neg {
        9223372036854775808
    } else {
        9223372036854775807
    };
    let mut acc: u64 = 0;
    let mut i: usize = start;
    assert(d.take(0) =~= Seq::<char>::empty());
    while i < s.len()
        invariant
            start <= i <= s@.len(),
            start < s@.len(),
            d == s@.skip(start as int),
            d == unsigned_part(s@),
            acc <= limit,
            limit == (if neg {
                9223372036854775808u64
            } else {
                9223372036854775807u64
            }),
            neg == (s@.len() > 0 && s@[0] == '-'),
            acc as int == digits_value(d.take(i - start)),
            forall|k: int| 0 <= k < i - start ==> is_digit(#[trigger] d[k]),
        decreases s@.len() - i,
    {
        let c = s[i];
        assert(d[i - start] == c);
        if !('0' <= c && c <= '9') {
            assert(!is_digit(d[i - start]));
            proof {
                lemma_parse_i64_nondigit(s@, i - start);
            }
            return None;
        }
        let dv = (c as u32 - '0' as u32) as u64;
        assert(dv <= 9);
        assert(d.take(i - start + 1).drop_last() =~= d.take(i - start));
        assert(d.take(i - start + 1).last() == c);
        assert(dv as int == (c as int) - ('0' as int));
        if acc > (limit - dv) / 10 {
            // the value of the digits read so far already exceeds the bound
            proof {
                assert(10 * acc + dv > limit);
                assert(digits_value(d.take(i - start + 1)) == 10 * acc + dv);
                assert forall|k: int| 0 <= k < i - start + 1 implies is_digit(#[trigger] d[k]) by {
                    if k == i - start {
                        assert(d[k] == c);
                    }
                }
                if all_digits(d) {
                    lemma_digits_value_monotonic(d, i - start + 1, d.len() as int);
                    assert(d.take(d.len() as int) =~= d);
                    assert(digits_value(d) > limit);
                }
                assert(parse_i64_text(s@) is None);
            }
            return None;
        }
        acc = acc * 10 + dv;
        i += 1;
    }
    assert(d.take(i - start) =~= d);
    if neg {
        if acc == 9223372036854775808 {
            Some(i64::MIN)
        } else {
            Some(-(acc as i64))
        }
    } else {
        Some(acc as i64)
    }
}

/// The part of a line before its first `#`.
pub open spec fn before_hash(line: Seq<char>) -> Seq<char> {
    line.take(first_index_of(line, '#'))
}

/// One logical line applied to the configuration: comments and `[table]`
/// headers are skipped, as are lines without `=`; a known key sets its
/// field, and a value that does not read is an error.
pub open spec fn config_line(cfg: ConfigV, line: Seq<char>) -> Result<ConfigV, Seq<char>> {
    let l = trim(before_hash(line));
    if l.len() == 0 || l[0] == '[' || !l.contains('=') {
        Ok(cfg)
    } else {
        let e = first_index_of(l, '=');
        let key = trim(l.take(e));
        let value = trim(l.skip(e + 1));
        if key == "username"@ {
            match toml_string(value) {
                Ok(s) => Ok(ConfigV { username: s, ..cfg }),
                Err(m) => Err(m),
            }
        } else if key == "title"@ {
            match toml_string(value) {
                Ok(s) => Ok(ConfigV { title: s, ..cfg }),
                Err(m) => Err(m),
            }
        } else if key == "base_path"@ {
            match toml_string(value) {
                Ok(s) => Ok(ConfigV { base_path: s, ..cfg }),
                Err(m) => Err(m),
            }
        } else if key == "site_root"@ {
            match toml_string(value) {
                Ok(s) => Ok(ConfigV { site_root: s, ..cfg }),
                Err(m) => Err(m),
            }
        } else if key == "bootstrap_months"@ {
            match parse_i64_text(value) {
                Some(n) => Ok(ConfigV { bootstrap_months: n, ..cfg }),
                None => Err("invalid bootstrap_months"@),
            }
        } else if key == "allowlist"@ {
            match toml_array(value) {
                Ok(items) => Ok(ConfigV { allowlist: items.to_set(), ..cfg }),
                Err(m) => Err(m),
            }
        } else if key == "keywords"@ {
            match toml_array(value) {
                Ok(items) => Ok(ConfigV { keywords: items, ..cfg }),
                Err(m) => Err(m),
            }
        } else if key == "exclude"@ {
            match toml_array(value) {
                Ok(items) => Ok(ConfigV { exclude: items.to_set(), ..cfg }),
                Err(m) => Err(m),
            }
        } else {
            Ok(cfg)
        }
    }
}

/// The configuration after the given logical lines, or the first error.
pub open spec fn config_lines(ls: Seq<Seq<char>>) -> Result<ConfigV, Seq<char>>
    decreases ls.len(),
{
    if ls.len() == 0 {
        Ok(config_defaults())
    } else {
        match config_lines(ls.drop_last()) {
            Ok(c) => config_line(c, ls.last()),
            Err(e) => Err(e),
        }
    }
}

/// The configuration a text describes; a configuration without a user name
/// is refused.
pub open spec fn parse_config(raw: Seq<char>) -> Result<ConfigV, Seq<char>> {
    match config_lines(logical_lines(raw)) {
        Ok(c) => if c.username.len() == 0 {
            Err("config/site.toml must set username"@)
        } else {
            Ok(c)
        },
        Err(e) => Err(e),
    }
}

/// Applies one logical line to `cfg`.
fn apply_config_line(cfg: &mut Config, line: &[char]) -> (r: Result<(), String>)
    requires
        old(cfg).wf(),
    ensures
        final(cfg).wf(),
        r is Ok ==> config_line(old(cfg)@, line@) == Ok::<ConfigV, Seq<char>>(final(cfg)@),
        r matches Err(e) ==> config_line(old(cfg)@, line@) == Err::<ConfigV, Seq<char>>(e@),
{
    let h = find_char(line, '#');
    proof {
        lemma_first_index_of(line@, '#');
    }
    let head = slice_chars(line, 0, h);
    assert(head@ =~= before_hash(line@));
    let l = trim_chars(&head);
    if l.len() == 0 || l[0] == '[' {
        return Ok(());
    }
    let e = find_char(&l, '=');
    proof {
        lemma_first_index_of(l@, '=');
    }
    if e == l.len() {
        return Ok(());
    }
    let key_raw = slice_chars(&l, 0, e);
    let value_raw = slice_chars(&l, e + 1, l.len());
    assert(key_raw@ =~= l@.take(e as int));
    assert(value_raw@ =~= l@.skip(e + 1));
    let key = trim_chars(&key_raw);
    let value = trim_chars(&value_raw);
    if chars_equal_str(&key, "username") {
        let s = parse_toml_string_chars(&value)?;
        cfg.username = string_of(&s);
    } else if chars_equal_str(&key, "title") {
        let s = parse_toml_string_chars(&value)?;
        cfg.title = string_of(&s);
    } else if chars_equal_str(&key, "base_path") {
        let s = parse_toml_string_chars(&value)?;
        cfg.base_path = string_of(&s);
    } else if chars_equal_str(&key, "site_root") {
        let s = parse_toml_string_chars(&value)?;
        cfg.site_root = string_of(&s);
    } else if chars_equal_str(&key, "bootstrap_months") {
        match parse_i64_chars(&value) {
            Some(n) => {
                cfg.bootstrap_months = n;
            },
            None => {
                return Err(string_of(&chars_of("invalid bootstrap_months")));
            },
        }
    } else if chars_equal_str(&key, "allowlist") {
        let items = parse_toml_array_chars(&value)?;
        let strings = strings_of(&items);
        cfg.allowlist = sorted_set(strings);
    } else if chars_equal_str(&key, "keywords") {
        let items = parse_toml_array_chars(&value)?;
        cfg.keywords = strings_of(&items);
    } else if chars_equal_str(&key, "exclude") {
        let items = parse_toml_array_chars(&value)?;
        let strings = strings_of(&items);
        cfg.exclude = sorted_set(strings);
    }
    Ok(())
}

impl Config {
    /// Reads a configuration text: keys `username`, `title`, `base_path`,
    /// `site_root`, `bootstrap_months`, `allowlist`, `keywords`, `exclude`;
    /// everything else is skipped. The user name must be set.
    pub fn parse(raw: &str) -> (r: Result<Config, String>)
        ensures
            r matches Ok(c) ==> c.wf() && parse_config(raw@) == Ok::<ConfigV, Seq<char>>(c@),
            r matches Err(e) ==> parse_config(raw@) == Err::<ConfigV, Seq<char>>(e@),
    {
        let cs = chars_of(raw);
        let lines = logical_lines_chars(&cs);
        let mut cfg = Config {
            username: String::new(),
            title: string_of(&chars_of("Bitcoin FOSS Contributions")),
            base_path: string_of(&chars_of("/btc_foss/")),
            site_root: string_of(&chars_of("https://trevs.site")),
            bootstrap_months: 5,
            allowlist: Vec::new(),
            keywords: Vec::new(),
            exclude: Vec::new(),
        };
        let ghost ls = char_views(lines@);
        assert(string_views(cfg.allowlist@) =~= Seq::<Seq<char>>::empty());
        assert(string_views(cfg.keywords@) =~= Seq::<Seq<char>>::empty());
        assert(string_views(cfg.exclude@) =~= Seq::<Seq<char>>::empty());
        assert(string_views(cfg.allowlist@).to_set() =~= Set::<Seq<char>>::empty());
        assert(string_views(cfg.exclude@).to_set() =~= Set::<Seq<char>>::empty());
        assert(cfg@ == config_defaults());
        assert(ls.take(0) =~= Seq::<Seq<char>>::empty());
        let mut i: usize = 0;
        while i < lines.len()
            invariant
                i <= lines@.len(),
                ls == char_views(lines@),
                ls == logical_lines(raw@),
                cfg.wf(),
                config_lines(ls.take(i as int)) == Ok::<ConfigV, Seq<char>>(cfg@),
            decreases lines@.len() - i,
        {
            proof {
                assert(ls.take(i + 1).drop_last() =~= ls.take(i as int));
                assert(ls.take(i + 1).last() == lines@[i as int]@);
            }
            match apply_config_line(&mut cfg, &lines[i]) {
                Ok(()) => {},
                Err(e) => {
                    proof {
                        assert(config_lines(ls.take(i + 1)) == Err::<ConfigV, Seq<char>>(e@));
                        lemma_config_lines_error(ls, i as int + 1, e@);
                        assert(ls == logical_lines(raw@));
                    }
                    return Err(e);
                },
            }
            i += 1;
        }
        assert(ls.take(i as int) =~= ls);
        assert(ls == logical_lines(raw@));
        if cfg.username.as_str().is_empty() {
            return Err(string_of(&chars_of("config/site.toml must set username")));
        }
        Ok(cfg)
    }
}

/// Once the lines read so far give an error, so do all the lines.
proof fn lemma_config_lines_error(ls: Seq<Seq<char>>, k: int, e: Seq<char>)
    requires
        0 <= k <= ls.len(),
        config_lines(ls.take(k)) == Err::<ConfigV, Seq<char>>(e),
    ensures
        config_lines(ls) == Err::<ConfigV, Seq<char>>(e),
    decreases ls.len() - k,
{
    if k < ls.len() {
        assert(ls.take(k + 1).drop_last() =~= ls.take(k));
        lemma_config_lines_error(ls, k + 1, e);
    } else {
        assert(ls.take(k) =~= ls);
    }
}

/// What `validate` answers for a configuration that was read.
pub open spec fn validation(cfg: ConfigV) -> Result<(), Seq<char>> {
    if cfg.username.len() == 0 {
        Err("config username must not be empty"@)
    } else if !(cfg.base_path.len() > 0 && cfg.base_path[0] == '/' && cfg.base_path.last()
        == '/') {
        Err("base_path must start and end with '/'"@)
    } else {
        Ok(())
    }
}

/// Checks a configuration: the user name is set and the base path starts
/// and ends with `/`.
pub fn validate_config(cfg: &Config) -> (r: Result<(), String>)
    ensures
        r is Ok == validation(cfg@) is Ok,
        r matches Err(e) ==> validation(cfg@) == Err::<(), Seq<char>>(e@),
{
    let base = chars_of(cfg.base_path.as_str());
    if cfg.username.as_str().is_empty() {
        return Err(string_of(&chars_of("config username must not be empty")));
    }
    if !(base.len() > 0 && base[0] == '/' && base[base.len() - 1] == '/') {
        return Err(string_of(&chars_of("base_path must start and end with '/'")));
    }
    Ok(())
}

} // verus!
