//! The agent's configuration file: `key = "value"` lines for its name, role
//! and voice.  Reading the file is the application's; reading its text is
//! here.
use vstd::prelude::*;

use crate::text::{
    chars_of, first_index_of, seq_starts_with, slice_range, split_chars, split_on,
    starts_with, string_from_chars, trim_chars, trim_end_char, trim_end_matches_char,
    trim_spec, trim_start_char, trim_start_matches_char,
};

verus! {

/// An agent's name, role and voice.
pub struct AgentConfig {
    pub name: String,
    pub role: String,
    pub voice: String,
}

/// Everything after the first `c`, if there is one.
pub open spec fn after_first(s: Seq<char>, c: char) -> Option<Seq<char>> {
    match first_index_of(s, c) {
        Some(i) => Some(s.subrange(i + 1, s.len() as int)),
        None => None,
    }
}

/// `s` without the leading and trailing runs of `c`.
pub open spec fn trim_both(s: Seq<char>, c: char) -> Seq<char> {
    trim_end_char(trim_start_char(s, c), c)
}

/// The value of `key` on a configuration line: the line, trimmed, must start
/// with `key = ` or `key=`; the value is what follows the first `=`, trimmed,
/// without surrounding double and then single quotes.
pub open spec fn toml_value(line: Seq<char>, key: Seq<char>) -> Option<Seq<char>> {
    let l = trim_spec(line);
    if seq_starts_with(l, key + " = "@) || seq_starts_with(l, key + "="@) {
        match after_first(l, '=') {
            Some(v) => Some(trim_both(trim_both(trim_spec(v), '"'), '\'')),
            None => None,
        }
    } else {
        None
    }
}

/// The name, role and voice set by the first `n` lines; a line sets the
/// first of the three keys it gives a value for, and a later line overrides
/// an earlier one.
pub open spec fn fields_upto(lines: Seq<Seq<char>>, n: nat) -> (
    Option<Seq<char>>,
    Option<Seq<char>>,
    Option<Seq<char>>,
)
    decreases n,
{
    if n == 0 || n > lines.len() {
        (None, None, None)
    } else {
        let f = fields_upto(lines, (n - 1) as nat);
        let line = trim_spec(lines[n - 1]);
        match toml_value(line, "name"@) {
            Some(v) => (Some(v), f.1, f.2),
            None => match toml_value(line, "role"@) {
                Some(v) => (f.0, Some(v), f.2),
                None => match toml_value(line, "voice"@) {
                    Some(v) => (f.0, f.1, Some(v)),
                    None => f,
                },
            },
        }
    }
}

/// A value, or a default where there is none.
pub open spec fn or_default(v: Option<Seq<char>>, d: Seq<char>) -> Seq<char> {
    match v {
        Some(x) => x,
        None => d,
    }
}

/// Everything after the first `c`.
fn take_after(s: &[char], c: char) -> (r: Option<Vec<char>>)
    ensures
        match after_first(s@, c) {
            Some(t) => r matches Some(v) && v@ == t,
            None => r.is_none(),
        },
{
    let mut i: usize = 0;
    while i < s.len()
        invariant
            i <= s.len(),
            forall|j: int| 0 <= j < i ==> s@[j] != c,
        decreases s.len() - i,
    {
        if s[i] == c {
            proof {
                lemma_first_index_at(s@, c, i as int);
            }
            return Some(slice_range(s, i + 1, s.len()));
        }
        i = i + 1;
    }
    proof {
        lemma_first_index_none(s@, c);
    }
    None
}

proof fn lemma_first_index_at(s: Seq<char>, c: char, i: int)
    requires
        0 <= i < s.len(),
        s[i] == c,
        forall|j: int| 0 <= j < i ==> s[j] != c,
    ensures
        first_index_of(s, c) == Some(i),
    decreases s.len(),
{
    if i < s.len() - 1 {
        let p = s.drop_last();
        assert forall|j: int| 0 <= j < i implies p[j] != c by {
            assert(p[j] == s[j]);
        }
        lemma_first_index_at(p, c, i);
    } else {
        lemma_first_index_none(s.drop_last(), c);
    }
}

proof fn lemma_first_index_none(s: Seq<char>, c: char)
    requires
        forall|j: int| 0 <= j < s.len() ==> s[j] != c,
    ensures
        first_index_of(s, c) is None,
    decreases s.len(),
{
    if s.len() > 0 {
        let p = s.drop_last();
        assert forall|j: int| 0 <= j < p.len() implies p[j] != c by {
            assert(p[j] == s[j]);
        }
        lemma_first_index_none(p, c);
    }
}

fn value_of(line: &[char], key: &str) -> (r: Option<Vec<char>>)
    ensures
        match toml_value(line@, key@) {
            Some(t) => r matches Some(v) && v@ == t,
            None => r.is_none(),
        },
{
    let l = trim_chars(line);
    let mut spaced = key.to_owned();
    spaced.append(" = ");
    let mut tight = key.to_owned();
    tight.append("=");
    if starts_with(l.as_slice(), spaced.as_str()) || starts_with(l.as_slice(), tight.as_str()) {
        match take_after(l.as_slice(), '=') {
            Some(v) => {
                let v = trim_chars(v.as_slice());
                let v = trim_start_matches_char(v.as_slice(), '"');
                let v = trim_end_matches_char(v.as_slice(), '"');
                let v = trim_start_matches_char(v.as_slice(), '\'');
                let v = trim_end_matches_char(v.as_slice(), '\'');
                Some(v)
            },
            None => None,
        }
    } else {
        None
    }
}

/// The value of `key` on a configuration line: the trimmed line must start
/// with `key = ` or `key=`, and the value is what follows the first `=`,
/// trimmed, with surrounding double and single quotes taken off.
pub fn extract_toml_string(line: &str, key: &str) -> (r: Option<String>)
    ensures
        match toml_value(line@, key@) {
            Some(t) => r matches Some(v) && v@ == t,
            None => r.is_none(),
        },
{
    let lc = chars_of(line);
    match value_of(lc.as_slice(), key) {
        Some(v) => Some(string_from_chars(v.as_slice())),
        None => None,
    }
}

/// Reads the name, role and voice from a configuration text, line by line
/// (lines end at `\n`; a trailing `\r` goes with the trimming), with
/// `unnamed`, `general agent` and `default` where a key is missing.  Always
/// gives a configuration.
pub fn parse_agent_toml(contents: &str) -> (r: Option<AgentConfig>)
    ensures
        ({
            let lines = split_on(contents@, '\n');
            let f = fields_upto(lines, lines.len());
            r matches Some(c) && c.name@ == or_default(f.0, "unnamed"@) && c.role@ == or_default(
                f.1,
                "general agent"@,
            ) && c.voice@ == or_default(f.2, "default"@)
        }),
{
    let cs = chars_of(contents);
    let lines = split_chars(cs.as_slice(), '\n');
    let ghost lv = split_on(contents@, '\n');
    let mut name: Option<Vec<char>> = None;
    let mut role: Option<Vec<char>> = None;
    let mut voice: Option<Vec<char>> = None;
    let mut i: usize = 0;
    while i < lines.len()
        invariant
            i <= lines@.len(),
            lines@.len() == lv.len(),
            forall|j: int| 0 <= j < lines@.len() ==> #[trigger] lines@[j]@ == lv[j],
            ({
                let f = fields_upto(lv, i as nat);
                &&& (match f.0 {
                    Some(t) => name matches Some(v) && v@ == t,
                    None => name.is_none(),
                })
                &&& (match f.1 {
                    Some(t) => role matches Some(v) && v@ == t,
                    None => role.is_none(),
                })
                &&& (match f.2 {
                    Some(t) => voice matches Some(v) && v@ == t,
                    None => voice.is_none(),
                })
            }),
        decreases lines.len() - i,
    {
        let line = trim_chars(lines[i].as_slice());
        proof {
            assert(line@ == trim_spec(lv[i as int]));
        }
        if let Some(v) = value_of(line.as_slice(), "name") {
            name = Some(v);
        } else if let Some(v) = value_of(line.as_slice(), "role") {
            role = Some(v);
        } else if let Some(v) = value_of(line.as_slice(), "voice") {
            voice = Some(v);
        }
        i = i + 1;
    }
    let name = match name {
        Some(v) => string_from_chars(v.as_slice()),
        None => "unnamed".to_owned(),
    };
    let role = match role {
        Some(v) => string_from_chars(v.as_slice()),
        None => "general agent".to_owned(),
    };
    let voice = match voice {
        Some(v) => string_from_chars(v.as_slice()),
        None => "default".to_owned(),
    };
    Some(AgentConfig { name, role, voice })
}

/// Entropy for a new identity from a clock reading in nanoseconds: 32 bytes,
/// byte `i` being the low eight bits of the reading shifted right by `4 * i`.
pub fn identity_entropy(nanos: u128) -> (r: Vec<u8>)
    ensures
        r@.len() == 32,
        forall|i: int| 0 <= i < 32 ==> #[trigger] r@[i] == ((nanos >> (4 * i) as u128) & 0xff) as u8,
{
    let mut bytes: Vec<u8> = Vec::new();
    let mut i: usize = 0;
    while i < 32
        invariant
            i <= 32,
            bytes@.len() == i,
            forall|j: int| 0 <= j < i ==> #[trigger] bytes@[j] == ((nanos >> (4 * j) as u128) & 0xff) as u8,
        decreases 32 - i,
    {
        let shift: u128 = (i as u128) * 4;
        bytes.push(((nanos >> shift) & 0xff) as u8);
        i = i + 1;
    }
    bytes
}

/// `str::trim_matches` with one character: `c` gone from both ends.
pub open spec fn trim_matches_spec(s: Seq<char>, c: char) -> Seq<char> {
    trim_end_char(trim_start_char(s, c), c)
}

/// One line of a `.env` file: `KEY=VALUE`, split at the first `=`, both
/// sides trimmed and the value freed of surrounding double then single
/// quotes. Blank lines, `#` comments and lines without `=` give nothing.
pub open spec fn dotenv_line(line: Seq<char>) -> Option<(Seq<char>, Seq<char>)> {
    let t = trim_spec(line);
    if t.len() == 0 || t[0] == '#' {
        None
    } else {
        match first_index_of(t, '=') {
            None => None,
            Some(k) => Some(
                (
                    trim_spec(t.subrange(0, k)),
                    trim_matches_spec(trim_matches_spec(trim_spec(t.subrange(k + 1, t.len() as int)), '"'), '\''),
                ),
            ),
        }
    }
}

/// The settings of the first `n` lines.
pub open spec fn dotenv_upto(lines: Seq<Seq<char>>, n: nat) -> Seq<(Seq<char>, Seq<char>)>
    decreases n,
{
    if n == 0 || n > lines.len() {
        Seq::empty()
    } else {
        let prev = dotenv_upto(lines, (n - 1) as nat);
        match dotenv_line(lines[n - 1]) {
            Some(p) => prev.push(p),
            None => prev,
        }
    }
}

/// The settings of a `.env` file, in the order they stand.
pub open spec fn dotenv_entries(contents: Seq<char>) -> Seq<(Seq<char>, Seq<char>)> {
    let lines = split_on(contents, '\n');
    dotenv_upto(lines, lines.len())
}

fn find_char(s: &[char], c: char) -> (r: Option<usize>)
    ensures
        match r {
            Some(i) => first_index_of(s@, c) == Some(i as int) && i < s@.len(),
            None => first_index_of(s@, c) is None,
        },
{
    let mut i: usize = 0;
    while i < s.len()
        invariant
            i <= s.len(),
            forall|j: int| 0 <= j < i ==> s@[j] != c,
        decreases s.len() - i,
    {
        if s[i] == c {
            proof {
                lemma_first_index_at(s@, c, i as int);
            }
            return Some(i);
        }
        i = i + 1;
    }
    proof {
        lemma_first_index_none(s@, c);
    }
    None
}

fn dotenv_setting(line: &[char]) -> (r: Option<(String, String)>)
    ensures
        match dotenv_line(line@) {
            Some(p) => r matches Some(q) && q.0@ == p.0 && q.1@ == p.1,
            None => r is None,
        },
{
    let t = trim_chars(line);
    if t.len() == 0 || t[0] == '#' {
        return None;
    }
    match find_char(t.as_slice(), '=') {
        None => None,
        Some(k) => {
            let key = trim_chars(slice_range(t.as_slice(), 0, k).as_slice());
            let v0 = trim_chars(slice_range(t.as_slice(), k + 1, t.len()).as_slice());
            let v1 = trim_start_matches_char(v0.as_slice(), '"');
            let v2 = trim_end_matches_char(v1.as_slice(), '"');
            let v3 = trim_start_matches_char(v2.as_slice(), '\'');
            let v4 = trim_end_matches_char(v3.as_slice(), '\'');
            Some((string_from_chars(key.as_slice()), string_from_chars(v4.as_slice())))
        },
    }
}

/// Reads the settings of a `.env` file's text.
pub fn parse_dotenv(contents: &str) -> (r: Vec<(String, String)>)
    ensures
        r@.map_values(|p: (String, String)| (p.0@, p.1@)) == dotenv_entries(contents@),
{
    let cs = chars_of(contents);
    let lines = split_chars(cs.as_slice(), '\n');
    let ghost lv = split_on(contents@, '\n');
    let mut out: Vec<(String, String)> = Vec::new();
    let mut i: usize = 0;
    proof {
        assert(lines@.len() == lv.len());
    }
    while i < lines.len()
        invariant
            i <= lines@.len(),
            lines@.len() == lv.len(),
            lv == split_on(contents@, '\n'),
            forall|j: int| 0 <= j < lines@.len() ==> #[trigger] lines@[j]@ == lv[j],
            out@.map_values(|p: (String, String)| (p.0@, p.1@)) == dotenv_upto(lv, i as nat),
        decreases lines.len() - i,
    {
        proof {
            assert(lines@[i as int]@ == lv[i as int]);
        }
        let ghost before = out@;
        match dotenv_setting(lines[i].as_slice()) {
            Some(p) => {
                out.push(p);
                proof {
                    assert(out@.map_values(|p: (String, String)| (p.0@, p.1@)) =~= before.map_values(
                        |p: (String, String)| (p.0@, p.1@),
                    ).push((p.0@, p.1@)));
                }
            },
            None => {},
        }
        i = i + 1;
    }
    out
}

} // verus!
