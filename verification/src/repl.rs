//! The console's command language: which command a line names, and the
//! arguments of the commands that take some.  Carrying the commands out is
//! the application's.
use vstd::prelude::*;

use crate::graph::EdgeKind;
use crate::model::DistanceMetric;
use crate::text::{
    chars_eq_str, chars_of, char_whitespace, first_index_of, is_whitespace, parse_unsigned,
    parse_unsigned_spec, slice_range, str_lowercase, string_from_chars, take_before, to_lowercase,
    trim_chars, trim_spec, before_first,
};

verus! {

/// A console command.
#[derive(Debug, Clone, Copy, PartialEq, Eq, Structural)]
pub enum ReplCommand {
    Remember,
    Recall,
    Dream,
    Status,
    Inspect,
    Keystone,
    Connect,
    Disconnect,
    Neighbors,
    Terms,
    /// `skg` with no argument: the whole knowledge graph.
    Skg,
    /// `skg TERM`: one term's pairs.
    SkgTerm,
    Clock,
    Offer,
    Upsert,
    Delete,
    Query,
    Rewrite,
    Topk,
    MaxId,
    Get,
    Touch,
    Unknown,
}

/// Everything after the first space (nothing when there is none).
pub open spec fn after_space(line: Seq<char>) -> Seq<char> {
    match first_index_of(line, ' ') {
        Some(i) => line.subrange(i + 1, line.len() as int),
        None => Seq::empty(),
    }
}

/// The command named by a lowercase word; `skg` depends on whether an
/// argument follows.
pub open spec fn command_of(word: Seq<char>, tail: Seq<char>) -> ReplCommand {
    if word == "remember"@ {
        ReplCommand::Remember
    } else if word == "recall"@ {
        ReplCommand::Recall
    } else if word == "dream"@ {
        ReplCommand::Dream
    } else if word == "status"@ {
        ReplCommand::Status
    } else if word == "inspect"@ {
        ReplCommand::Inspect
    } else if word == "keystone"@ {
        ReplCommand::Keystone
    } else if word == "connect"@ {
        ReplCommand::Connect
    } else if word == "disconnect"@ {
        ReplCommand::Disconnect
    } else if word == "neighbors"@ {
        ReplCommand::Neighbors
    } else if word == "terms"@ {
        ReplCommand::Terms
    } else if word == "skg"@ {
        if tail.len() == 0 {
            ReplCommand::Skg
        } else {
            ReplCommand::SkgTerm
        }
    } else if word == "clock"@ {
        ReplCommand::Clock
    } else if word == "offer"@ {
        ReplCommand::Offer
    } else if word == "upsert"@ {
        ReplCommand::Upsert
    } else if word == "delete"@ {
        ReplCommand::Delete
    } else if word == "query"@ {
        ReplCommand::Query
    } else if word == "rewrite"@ {
        ReplCommand::Rewrite
    } else if word == "topk"@ {
        ReplCommand::Topk
    } else if word == "maxid"@ {
        ReplCommand::MaxId
    } else if word == "get"@ {
        ReplCommand::Get
    } else if word == "touch"@ {
        ReplCommand::Touch
    } else {
        ReplCommand::Unknown
    }
}

fn space_index(s: &[char]) -> (r: Option<usize>)
    ensures
        match first_index_of(s@, ' ') {
            Some(i) => r == Some(i as usize),
            None => r.is_none(),
        },
{
    let mut i: usize = 0;
    while i < s.len()
        invariant
            i <= s.len(),
            first_index_of(s@.subrange(0, i as int), ' ').is_none(),
        decreases s.len() - i,
    {
        if s[i] == ' ' {
            proof {
                lemma_first_index_found(s@, ' ', i as int);
            }
            return Some(i);
        }
        proof {
            assert(s@.subrange(0, i + 1).drop_last() =~= s@.subrange(0, i as int));
        }
        i = i + 1;
    }
    proof {
        assert(s@.subrange(0, s@.len() as int) =~= s@);
    }
    None
}

fn take_after_space(s: &[char]) -> (r: Vec<char>)
    ensures
        r@ == after_space(s@),
{
    let mut i: usize = 0;
    while i < s.len()
        invariant
            i <= s.len(),
            first_index_of(s@.subrange(0, i as int), ' ').is_none(),
        decreases s.len() - i,
    {
        if s[i] == ' ' {
            proof {
                lemma_first_index_found(s@, ' ', i as int);
            }
            return slice_range(s, i + 1, s.len());
        }
        proof {
            assert(s@.subrange(0, i + 1).drop_last() =~= s@.subrange(0, i as int));
        }
        i = i + 1;
    }
    proof {
        assert(s@.subrange(0, s@.len() as int) =~= s@);
    }
    Vec::new()
}

proof fn lemma_first_index_found(s: Seq<char>, c: char, i: int)
    requires
        0 <= i < s.len(),
        s[i] == c,
        first_index_of(s.subrange(0, i), c).is_none(),
    ensures
        first_index_of(s, c) == Some(i),
    decreases s.len(),
{
    if i == s.len() - 1 {
        assert(s.drop_last() =~= s.subrange(0, i));
    } else {
        assert(s.drop_last().subrange(0, i) =~= s.subrange(0, i));
        lemma_first_index_found(s.drop_last(), c, i);
    }
}

/// The command a lowercase word names, `tail` being the rest of the line.
pub fn command_named(word: &str, tail: &str) -> (r: ReplCommand)
    ensures
        r == command_of(word@, tail@),
{
    let w = chars_of(word);
    let t = chars_of(tail);
    command_for(w.as_slice(), t.len() == 0)
}

fn command_for(word: &[char], tail_empty: bool) -> (r: ReplCommand)
    ensures
        tail_empty ==> r == command_of(word@, Seq::empty()),
        !tail_empty ==> r == command_of(word@, seq!['x']),
{
    if chars_eq_str(word, "remember") {
        ReplCommand::Remember
    } else if chars_eq_str(word, "recall") {
        ReplCommand::Recall
    } else if chars_eq_str(word, "dream") {
        ReplCommand::Dream
    } else if chars_eq_str(word, "status") {
        ReplCommand::Status
    } else if chars_eq_str(word, "inspect") {
        ReplCommand::Inspect
    } else if chars_eq_str(word, "keystone") {
        ReplCommand::Keystone
    } else if chars_eq_str(word, "connect") {
        ReplCommand::Connect
    } else if chars_eq_str(word, "disconnect") {
        ReplCommand::Disconnect
    } else if chars_eq_str(word, "neighbors") {
        ReplCommand::Neighbors
    } else if chars_eq_str(word, "terms") {
        ReplCommand::Terms
    } else if chars_eq_str(word, "skg") {
        if tail_empty {
            ReplCommand::Skg
        } else {
            ReplCommand::SkgTerm
        }
    } else if chars_eq_str(word, "clock") {
        ReplCommand::Clock
    } else if chars_eq_str(word, "offer") {
        ReplCommand::Offer
    } else if chars_eq_str(word, "upsert") {
        ReplCommand::Upsert
    } else if chars_eq_str(word, "delete") {
        ReplCommand::Delete
    } else if chars_eq_str(word, "query") {
        ReplCommand::Query
    } else if chars_eq_str(word, "rewrite") {
        ReplCommand::Rewrite
    } else if chars_eq_str(word, "topk") {
        ReplCommand::Topk
    } else if chars_eq_str(word, "maxid") {
        ReplCommand::MaxId
    } else if chars_eq_str(word, "get") {
        ReplCommand::Get
    } else if chars_eq_str(word, "touch") {
        ReplCommand::Touch
    } else {
        ReplCommand::Unknown
    }
}

/// Reads a console line: the command is named by the lowercase first word
/// (up to the first space); the argument is the rest of the line after that
/// space, trimmed.
pub fn parse_command(line: &str) -> (r: (ReplCommand, String))
    ensures
        r.1@ == trim_spec(after_space(line@)),
        r.0 == command_of(str_lowercase(before_first(line@, ' ')), r.1@),
{
    let chars = chars_of(line);
    let first = take_before(chars.as_slice(), ' ');
    let first_s = string_from_chars(first.as_slice());
    let lower_s = to_lowercase(first_s.as_str());
    let lower = chars_of(lower_s.as_str());
    let rest = take_after_space(chars.as_slice());
    let tail = trim_chars(rest.as_slice());
    let cmd = command_for(lower.as_slice(), tail.len() == 0);
    (cmd, string_from_chars(tail.as_slice()))
}

/// The distance metric named by a word, in any case.
pub fn parse_metric(text: &str) -> (r: Option<DistanceMetric>)
    ensures
        r == (if str_lowercase(text@) == "cosine"@ {
            Some(DistanceMetric::Cosine)
        } else if str_lowercase(text@) == "l2"@ {
            Some(DistanceMetric::L2)
        } else {
            None::<DistanceMetric>
        }),
{
    let lower_s = to_lowercase(text);
    let lower = chars_of(lower_s.as_str());
    if chars_eq_str(lower.as_slice(), "cosine") {
        Some(DistanceMetric::Cosine)
    } else if chars_eq_str(lower.as_slice(), "l2") {
        Some(DistanceMetric::L2)
    } else {
        None
    }
}

/// Why a command's arguments were refused.
#[derive(Debug, Clone, PartialEq, Eq)]
pub enum ArgError {
    /// Fewer arguments than the command needs; the message says which.
    Missing(&'static str),
    /// This argument is not a `u32`.
    NotAnId(String),
}

/// The pieces of `s` between whitespace, empty pieces included.
pub open spec fn ws_pieces(s: Seq<char>) -> Seq<Seq<char>>
    decreases s.len(),
{
    if s.len() == 0 {
        seq![Seq::<char>::empty()]
    } else {
        let rest = ws_pieces(s.drop_last());
        if char_whitespace(s.last()) {
            rest.push(Seq::<char>::empty())
        } else {
            rest.update(rest.len() - 1, rest.last().push(s.last()))
        }
    }
}

/// The words of `s`: its non-empty pieces between whitespace, as
/// `str::split_whitespace` gives them.
pub open spec fn ws_words(s: Seq<char>) -> Seq<Seq<char>> {
    ws_pieces(s).filter(|w: Seq<char>| w.len() > 0)
}

proof fn lemma_ws_pieces_nonempty(s: Seq<char>)
    ensures
        ws_pieces(s).len() >= 1,
    decreases s.len(),
{
    if s.len() > 0 {
        lemma_ws_pieces_nonempty(s.drop_last());
    }
}

pub(crate) fn split_ws(s: &[char]) -> (r: Vec<Vec<char>>)
    ensures
        r@.map_values(|v: Vec<char>| v@) == ws_words(s@),
{
    let ghost keepf = |w: Seq<char>| w.len() > 0;
    let mut out: Vec<Vec<char>> = Vec::new();
    let mut cur: Vec<char> = Vec::new();
    let mut i: usize = 0;
    assert(s@.subrange(0, 0) =~= Seq::<char>::empty());
    while i < s.len()
        invariant
            i <= s.len(),
            keepf == (|w: Seq<char>| w.len() > 0),
            ws_pieces(s@.subrange(0, i as int)).len() >= 1,
            cur@ == ws_pieces(s@.subrange(0, i as int)).last(),
            out@.map_values(|v: Vec<char>| v@) == ws_pieces(s@.subrange(0, i as int)).drop_last().filter(
                keepf,
            ),
        decreases s.len() - i,
    {
        let ghost p = ws_pieces(s@.subrange(0, i as int));
        let c = s[i];
        assert(s@.subrange(0, i + 1).drop_last() =~= s@.subrange(0, i as int));
        assert(s@.subrange(0, i + 1).last() == c);
        if is_whitespace(c) {
            let ghost before = out@;
            if cur.len() > 0 {
                let t = cur.clone();
                out.push(t);
                proof {
                    before.lemma_push_map_commute(|v: Vec<char>| v@, t);
                }
            }
            proof {
                p.drop_last().lemma_filter_push(p.last(), keepf);
                assert(p.drop_last().push(p.last()) =~= p);
                let np = ws_pieces(s@.subrange(0, i + 1));
                assert(np == p.push(Seq::<char>::empty()));
                assert(np.drop_last() =~= p);
            }
            cur = Vec::new();
        } else {
            cur.push(c);
            proof {
                let np = ws_pieces(s@.subrange(0, i + 1));
                assert(np == p.update(p.len() - 1, p.last().push(c)));
                assert(np.drop_last() =~= p.drop_last());
            }
        }
        proof {
            lemma_ws_pieces_nonempty(s@.subrange(0, i + 1));
        }
        i = i + 1;
    }
    let ghost p = ws_pieces(s@.subrange(0, i as int));
    assert(s@.subrange(0, i as int) =~= s@);
    let ghost before = out@;
    if cur.len() > 0 {
        let t = cur.clone();
        out.push(t);
        proof {
            before.lemma_push_map_commute(|v: Vec<char>| v@, t);
        }
    }
    proof {
        p.drop_last().lemma_filter_push(p.last(), keepf);
        assert(p.drop_last().push(p.last()) =~= p);
    }
    out
}

fn parse_id(s: &[char]) -> (r: Result<u32, ArgError>)
    ensures
        match parse_unsigned_spec(s@, u32::MAX as nat) {
            Some(v) => r == Ok::<u32, ArgError>(v as u32),
            None => r matches Err(ArgError::NotAnId(t)) && t@ == s@,
        },
{
    match parse_unsigned(s, 0xffff_ffff) {
        Some(v) => Ok(v as u32),
        None => Err(ArgError::NotAnId(string_from_chars(s))),
    }
}

/// The arguments of `connect`: two ids, then an optional label (`related`
/// by default) and an optional kind (`causal`, else semantic), separated by
/// whitespace.
pub open spec fn connect_args_spec(tail: Seq<char>) -> Result<(u32, u32, Seq<char>, EdgeKind), Seq<char>> {
    let w = ws_words(tail);
    if w.len() < 2 {
        Err(Seq::empty())
    } else {
        match (parse_unsigned_spec(w[0], u32::MAX as nat), parse_unsigned_spec(w[1], u32::MAX as nat)) {
            (Some(a), Some(b)) => Ok(
                (
                    a as u32,
                    b as u32,
                    if w.len() > 2 { w[2] } else { "related"@ },
                    if w.len() > 3 && w[3] == "causal"@ { EdgeKind::Causal } else { EdgeKind::Semantic },
                ),
            ),
            (None, _) => Err(w[0]),
            (Some(_), None) => Err(w[1]),
        }
    }
}

/// Reads the arguments of `connect`.  Fewer than two words is refused as
/// missing; a first or second word that is not a `u32` is refused with that
/// word.
pub fn parse_connect_args(tail: &str) -> (r: Result<(u32, u32, String, EdgeKind), ArgError>)
    ensures
        match connect_args_spec(tail@) {
            Ok(v) => r matches Ok(x) && x.0 == v.0 && x.1 == v.1 && x.2@ == v.2 && x.3 == v.3,
            Err(bad) => if ws_words(tail@).len() < 2 {
                r == Err::<(u32, u32, String, EdgeKind), ArgError>(
                    ArgError::Missing("connect: need at least two IDs"),
                )
            } else {
                r matches Err(ArgError::NotAnId(t)) && t@ == bad
            },
        },
{
    let chars = chars_of(tail);
    let parts = split_ws(chars.as_slice());
    let ghost w = ws_words(tail@);
    proof {
        assert(parts@.len() == w.len());
    }
    if parts.len() < 2 {
        return Err(ArgError::Missing("connect: need at least two IDs"));
    }
    proof {
        assert(parts@[0]@ == w[0]);
        assert(parts@[1]@ == w[1]);
    }
    let a = match parse_id(parts[0].as_slice()) {
        Ok(v) => v,
        Err(e) => return Err(e),
    };
    let b = match parse_id(parts[1].as_slice()) {
        Ok(v) => v,
        Err(e) => return Err(e),
    };
    let label = if parts.len() > 2 {
        proof {
            assert(parts@[2]@ == w[2]);
        }
        string_from_chars(parts[2].as_slice())
    } else {
        "related".to_owned()
    };
    let kind = if parts.len() > 3 && chars_eq_str(parts[3].as_slice(), "causal") {
        EdgeKind::Causal
    } else {
        EdgeKind::Semantic
    };
    proof {
        if parts@.len() > 3 {
            assert(parts@[3]@ == w[3]);
        }
    }
    Ok((a, b, label, kind))
}

/// Reads the arguments of `disconnect`: the text before the first space and
/// the text after it, each a `u32`.
pub fn parse_disconnect_args(tail: &str) -> (r: Result<(u32, u32), ArgError>)
    ensures
        ({
            let s = tail@;
            let first = before_first(s, ' ');
            match parse_unsigned_spec(first, u32::MAX as nat) {
                None => r matches Err(ArgError::NotAnId(t)) && t@ == first,
                Some(a) => match first_index_of(s, ' ') {
                    None => r == Err::<(u32, u32), ArgError>(ArgError::Missing("disconnect: missing id2")),
                    Some(_) => match parse_unsigned_spec(after_space(s), u32::MAX as nat) {
                        None => r matches Err(ArgError::NotAnId(t)) && t@ == after_space(s),
                        Some(b) => r == Ok::<(u32, u32), ArgError>((a as u32, b as u32)),
                    },
                },
            }
        }),
{
    let chars = chars_of(tail);
    let first = take_before(chars.as_slice(), ' ');
    let a = match parse_id(first.as_slice()) {
        Ok(v) => v,
        Err(e) => return Err(e),
    };
    if space_index(chars.as_slice()).is_none() {
        return Err(ArgError::Missing("disconnect: missing id2"));
    }
    let rest = take_after_space(chars.as_slice());
    let b = match parse_id(rest.as_slice()) {
        Ok(v) => v,
        Err(e) => return Err(e),
    };
    Ok((a, b))
}

/// Reads the arguments of `topk`: the metric, the vector literal and `k`,
/// split at the first two spaces (the last keeps any further spaces).
pub fn parse_topk_args(tail: &str) -> (r: Result<(String, String, String), ArgError>)
    ensures
        ({
            let s = tail@;
            match first_index_of(s, ' ') {
                None => r == Err::<(String, String, String), ArgError>(ArgError::Missing("topk: missing vector")),
                Some(_) => {
                    let rest = after_space(s);
                    match first_index_of(rest, ' ') {
                        None => r == Err::<(String, String, String), ArgError>(ArgError::Missing("topk: missing k")),
                        Some(_) => r matches Ok(x) && x.0@ == before_first(s, ' ') && x.1@ == before_first(rest, ' ')
                            && x.2@ == after_space(rest),
                    }
                },
            }
        }),
{
    let chars = chars_of(tail);
    if space_index(chars.as_slice()).is_none() {
        return Err(ArgError::Missing("topk: missing vector"));
    }
    let metric = take_before(chars.as_slice(), ' ');
    let rest = take_after_space(chars.as_slice());
    if space_index(rest.as_slice()).is_none() {
        return Err(ArgError::Missing("topk: missing k"));
    }
    let vector = take_before(rest.as_slice(), ' ');
    let k = take_after_space(rest.as_slice());
    Ok((
        string_from_chars(metric.as_slice()),
        string_from_chars(vector.as_slice()),
        string_from_chars(k.as_slice()),
    ))
}

} // verus!
