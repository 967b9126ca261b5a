//! Service URL handling for the embedding/inversion service, and the word
//! sets that inversion quality is measured on.
//!
//! The network calls and the similarity score itself (a float) stay with the
//! application; reading a base URL into host, port and scheme, and counting
//! the words two texts share, are here.
use vstd::prelude::*;

use crate::repl::{split_ws, ws_words};
use crate::text::{char_alphanumeric, is_alphanumeric};

use crate::clock::{last_colon, rfind_colon};
use crate::text::{
    chars_of, parse_unsigned, parse_unsigned_spec, seq_starts_with, slice_range, starts_with,
    strip_prefix, strip_prefix_spec, string_from_chars, trim_end_char, trim_end_matches_char,
};

verus! {

/// A service base URL read into its parts.
#[derive(Debug, Clone)]
pub struct ParsedUrl {
    pub host: String,
    pub port: u16,
    pub tls: bool,
}

/// Host, port and TLS flag of a base URL: `https://` means TLS (default port
/// 443), `http://` or no scheme means plain (default port 8080); trailing
/// slashes are ignored; a port after the last `:` must read as a `u16`.
pub open spec fn parse_url_spec(url: Seq<char>) -> Option<(Seq<char>, u16, bool)> {
    let tls = seq_starts_with(url, "https://"@);
    let rest = match strip_prefix_spec(url, "https://"@) {
        Some(t) => t,
        None => match strip_prefix_spec(url, "http://"@) {
            Some(t) => t,
            None => url,
        },
    };
    let stripped = trim_end_char(rest, '/');
    match last_colon(stripped) {
        Some(colon) => match parse_unsigned_spec(
            stripped.subrange(colon + 1, stripped.len() as int),
            65535,
        ) {
            Some(p) => Some((stripped.subrange(0, colon), p as u16, tls)),
            None => None,
        },
        None => Some((stripped, if tls { 443u16 } else { 8080u16 }, tls)),
    }
}

pub fn parse_url(url: &str) -> (r: Option<ParsedUrl>)
    ensures
        match parse_url_spec(url@) {
            Some((h, p, t)) => r matches Some(u) && u.host@ == h && u.port == p && u.tls == t,
            None => r.is_none(),
        },
{
    let chars = chars_of(url);
    let tls = starts_with(chars.as_slice(), "https://");
    let rest = match strip_prefix(chars.as_slice(), "https://") {
        Some(t) => t,
        None => match strip_prefix(chars.as_slice(), "http://") {
            Some(t) => t,
            None => chars,
        },
    };
    let ghost rs = match strip_prefix_spec(url@, "https://"@) {
        Some(t) => t,
        None => match strip_prefix_spec(url@, "http://"@) {
            Some(t) => t,
            None => url@,
        },
    };
    assert(rest@ == rs);
    let stripped = trim_end_matches_char(rest.as_slice(), '/');
    match rfind_colon(stripped.as_slice()) {
        Some(colon) => {
            let h = slice_range(stripped.as_slice(), 0, colon);
            let port_text = slice_range(stripped.as_slice(), colon + 1, stripped.len());
            match parse_unsigned(port_text.as_slice(), 65535) {
                Some(p) => {
                    assert(p <= 65535);
                    Some(ParsedUrl { host: string_from_chars(h.as_slice()), port: p as u16, tls })
                },
                None => None,
            }
        },
        None => {
            let port: u16 = if tls { 443 } else { 8080 };
            Some(ParsedUrl { host: string_from_chars(stripped.as_slice()), port, tls })
        },
    }
}

/// The string without leading characters that are not alphanumeric.
pub open spec fn trim_start_nonalnum(s: Seq<char>) -> Seq<char>
    decreases s.len(),
{
    if s.len() > 0 && !char_alphanumeric(s[0]) {
        trim_start_nonalnum(s.drop_first())
    } else {
        s
    }
}

/// The string without trailing characters that are not alphanumeric.
pub open spec fn trim_end_nonalnum(s: Seq<char>) -> Seq<char>
    decreases s.len(),
{
    if s.len() > 0 && !char_alphanumeric(s.last()) {
        trim_end_nonalnum(s.drop_last())
    } else {
        s
    }
}

/// A word without surrounding punctuation.
pub open spec fn bare_word(w: Seq<char>) -> Seq<char> {
    trim_end_nonalnum(trim_start_nonalnum(w))
}

/// The bare words of a list of words, empty ones dropped, in order.
pub open spec fn bare_words(ws: Seq<Seq<char>>) -> Seq<Seq<char>>
    decreases ws.len(),
{
    if ws.len() == 0 {
        Seq::empty()
    } else {
        let prev = bare_words(ws.drop_last());
        let t = bare_word(ws.last());
        if t.len() > 0 {
            prev.push(t)
        } else {
            prev
        }
    }
}

/// The set of words of a text that similarity compares: its
/// whitespace-separated words, without surrounding punctuation, empty ones
/// dropped.
pub open spec fn word_set(s: Seq<char>) -> Set<Seq<char>> {
    bare_words(ws_words(s)).to_set()
}

fn bare_word_chars(w: &[char]) -> (r: Vec<char>)
    ensures
        r@ == bare_word(w@),
{
    let mut start: usize = 0;
    proof {
        assert(w@.subrange(0, w@.len() as int) =~= w@);
    }
    while start < w.len() && !is_alphanumeric(w[start])
        invariant
            start <= w@.len(),
            trim_start_nonalnum(w@) == trim_start_nonalnum(w@.subrange(start as int, w@.len() as int)),
        decreases w.len() - start,
    {
        proof {
            assert(w@.subrange(start as int, w@.len() as int).drop_first() =~= w@.subrange(
                start + 1,
                w@.len() as int,
            ));
        }
        start = start + 1;
    }
    let ghost mid = w@.subrange(start as int, w@.len() as int);
    proof {
        assert(trim_start_nonalnum(mid) == mid);
    }
    let mut end: usize = w.len();
    proof {
        assert(mid.subrange(0, mid.len() as int) =~= mid);
        assert(w@.subrange(start as int, end as int) =~= mid);
    }
    while end > start && !is_alphanumeric(w[end - 1])
        invariant
            start <= end <= w@.len(),
            mid == w@.subrange(start as int, w@.len() as int),
            trim_end_nonalnum(mid) == trim_end_nonalnum(w@.subrange(start as int, end as int)),
        decreases end - start,
    {
        proof {
            assert(w@.subrange(start as int, end as int).drop_last() =~= w@.subrange(start as int, end - 1));
        }
        end = end - 1;
    }
    let mut r: Vec<char> = Vec::new();
    let mut k: usize = start;
    while k < end
        invariant
            start <= k <= end,
            end <= w@.len(),
            r@ == w@.subrange(start as int, k as int),
        decreases end - k,
    {
        r.push(w[k]);
        proof {
            assert(w@.subrange(start as int, k + 1) =~= w@.subrange(start as int, k as int).push(w@[k as int]));
        }
        k = k + 1;
    }
    r
}

fn holds_word(list: &Vec<Vec<char>>, w: &Vec<char>) -> (r: bool)
    ensures
        r == list@.map_values(|v: Vec<char>| v@).contains(w@),
{
    let ghost views = list@.map_values(|v: Vec<char>| v@);
    let mut i: usize = 0;
    while i < list.len()
        invariant
            i <= list@.len(),
            views == list@.map_values(|v: Vec<char>| v@),
            forall|j: int| 0 <= j < i ==> views[j] != w@,
        decreases list.len() - i,
    {
        if crate::text::chars_eq(list[i].as_slice(), w.as_slice()) {
            proof {
                assert(views[i as int] == w@);
            }
            return true;
        }
        i = i + 1;
    }
    false
}

/// The distinct words of a text, each once.
fn distinct_words(s: &str) -> (r: Vec<Vec<char>>)
    ensures
        r@.map_values(|v: Vec<char>| v@).no_duplicates(),
        r@.map_values(|v: Vec<char>| v@).to_set() == word_set(s@),
{
    let cs = crate::text::chars_of(s);
    let words = split_ws(cs.as_slice());
    let ghost ws = ws_words(s@);
    let mut out: Vec<Vec<char>> = Vec::new();
    let mut i: usize = 0;
    proof {
        assert(words@.map_values(|v: Vec<char>| v@) == ws);
        assert(ws.take(0) =~= Seq::<Seq<char>>::empty());
        assert(out@.map_values(|v: Vec<char>| v@).to_set() =~= Set::<Seq<char>>::empty());
    }
    while i < words.len()
        invariant
            i <= words@.len(),
            words@.len() == ws.len(),
            forall|j: int| 0 <= j < words@.len() ==> #[trigger] words@[j]@ == ws[j],
            out@.map_values(|v: Vec<char>| v@).no_duplicates(),
            out@.map_values(|v: Vec<char>| v@).to_set() == bare_words(ws.take(i as int)).to_set(),
        decreases words.len() - i,
    {
        let t = bare_word_chars(words[i].as_slice());
        proof {
            assert(ws.take(i + 1).drop_last() =~= ws.take(i as int));
            assert(ws.take(i + 1).last() == ws[i as int]);
        }
        let ghost before = out@.map_values(|v: Vec<char>| v@);
        if t.len() > 0 && !holds_word(&out, &t) {
            let ghost tv = t@;
            out.push(t);
            proof {
                assert(out@.map_values(|v: Vec<char>| v@) =~= before.push(tv));
                before.lemma_push_to_set_commute(tv);
                assert(bare_words(ws.take(i + 1)) == bare_words(ws.take(i as int)).push(tv));
                bare_words(ws.take(i as int)).lemma_push_to_set_commute(tv);
                let after = before.push(tv);
                assert forall|a: int, b: int|
                    0 <= a < after.len() && 0 <= b < after.len() && a != b implies #[trigger] after[a]
                    != #[trigger] after[b] by {
                    if a == before.len() {
                        assert(!before.contains(tv));
                        assert(before[b] == after[b]);
                    } else if b == before.len() {
                        assert(!before.contains(tv));
                        assert(before[a] == after[a]);
                    }
                }
            }
        } else {
            proof {
                if t@.len() > 0 {
                    assert(before.contains(t@));
                    assert(bare_words(ws.take(i + 1)) == bare_words(ws.take(i as int)).push(t@));
                    bare_words(ws.take(i as int)).lemma_push_to_set_commute(t@);
                    assert(before.to_set().contains(t@));
                    assert(before.to_set().insert(t@) =~= before.to_set());
                } else {
                    assert(bare_words(ws.take(i + 1)) == bare_words(ws.take(i as int)));
                }
            }
        }
        i = i + 1;
    }
    proof {
        assert(ws.take(words@.len() as int) =~= ws);
    }
    out
}

/// The number of words two texts share and the number of words in either:
/// the sizes of the intersection and the union of their word sets.
pub fn word_overlap(a: &str, b: &str) -> (r: (usize, usize))
    ensures
        r.0 == word_set(a@).intersect(word_set(b@)).len(),
        r.1 == word_set(a@).union(word_set(b@)).len(),
{
    let da = distinct_words(a);
    let db = distinct_words(b);
    let ghost va = da@.map_values(|v: Vec<char>| v@);
    let ghost vb = db@.map_values(|v: Vec<char>| v@);
    let ghost sb = vb.to_set();
    let mut common: Vec<Vec<char>> = Vec::new();
    let mut only_a: Vec<Vec<char>> = Vec::new();
    let mut j: usize = 0;
    proof {
        assert(va.take(0).to_set() =~= Set::<Seq<char>>::empty());
        assert(common@.map_values(|v: Vec<char>| v@).to_set() =~= Set::<Seq<char>>::empty());
    }
    while j < da.len()
        invariant
            j <= da@.len(),
            va == da@.map_values(|v: Vec<char>| v@),
            vb == db@.map_values(|v: Vec<char>| v@),
            sb == vb.to_set(),
            va.no_duplicates(),
            common@.len() + only_a@.len() == j,
            common@.map_values(|v: Vec<char>| v@).no_duplicates(),
            common@.map_values(|v: Vec<char>| v@).to_set() == va.take(j as int).to_set().intersect(sb),
        decreases da.len() - j,
    {
        let ghost before = common@.map_values(|v: Vec<char>| v@);
        let ghost x = va[j as int];
        proof {
            assert(va.take(j + 1) =~= va.take(j as int).push(x));
            va.take(j as int).lemma_push_to_set_commute(x);
            assert(!va.take(j as int).contains(x)) by {
                if va.take(j as int).contains(x) {
                    let k = choose|k: int| 0 <= k < j && va.take(j as int)[k] == x;
                    assert(va[k] == va[j as int]);
                }
            }
        }
        if holds_word(&db, &da[j]) {
            common.push(da[j].clone());
            proof {
                assert(common@.map_values(|v: Vec<char>| v@) =~= before.push(x));
                before.lemma_push_to_set_commute(x);
                assert(!before.contains(x)) by {
                    if before.contains(x) {
                        assert(before.to_set().contains(x));
                    }
                }
                let after = before.push(x);
                assert forall|p: int, q: int|
                    0 <= p < after.len() && 0 <= q < after.len() && p != q implies #[trigger] after[p]
                    != #[trigger] after[q] by {
                    if p == before.len() {
                        assert(before[q] == after[q]);
                    } else if q == before.len() {
                        assert(before[p] == after[p]);
                    }
                }
                assert(common@.map_values(|v: Vec<char>| v@).to_set() =~= va.take(j + 1).to_set().intersect(sb));
            }
        } else {
            only_a.push(da[j].clone());
            proof {
                assert(common@.map_values(|v: Vec<char>| v@).to_set() =~= va.take(j + 1).to_set().intersect(sb));
            }
        }
        j = j + 1;
    }
    proof {
        assert(va.take(da@.len() as int) =~= va);
        va.unique_seq_to_set();
        vb.unique_seq_to_set();
        common@.map_values(|v: Vec<char>| v@).unique_seq_to_set();
        vstd::seq_lib::seq_to_set_is_finite(va);
        vstd::seq_lib::seq_to_set_is_finite(vb);
        vstd::set_lib::lemma_set_intersect_union_lens(va.to_set(), vb.to_set());
    }
    let inter = common.len();
    let mut either = db;
    either.append(&mut only_a);
    (inter, either.len())
}

} // verus!
