//! Query planner: normalizes user text into executable SQL.
//!
//! Rule-based rewriting is fully decided here.  When an agent key is set, a
//! freeform query is first offered to a language model; that network call is
//! made by the caller, which hands the reply back to `accept_llm_rewrite`.
use vstd::prelude::*;

use crate::text::{
    chars_of, contains, ends_with, push_char, seq_contains, seq_ends_with, seq_starts_with,
    starts_with, str_lowercase, string_from_chars, to_lowercase, trim_chars, trim_spec,
};

verus! {

#[derive(Debug, Clone)]
pub struct Planner {
    pub agent_key: Option<String>,
}

/// Result of an asynchronous planner rewrite.
pub struct PlannerResult {
    /// The original input text.
    pub input: String,
    /// The rewritten SQL (language model or rule-based fallback).
    pub sql: String,
    /// Whether the language model was used (vs rule-based fallback).
    pub llm_used: bool,
}

/// Why a query could not be planned.
#[derive(Debug, Clone, Copy, PartialEq, Eq, Structural)]
pub enum PlannerError {
    EmptyQuery,
}

impl PlannerError {
    /// The error's message.
    pub fn message(&self) -> (r: &'static str)
        ensures
            r == "empty query",
    {
        "empty query"
    }
}

/// Next step of a rewrite.
pub enum RewriteStep {
    /// The query is decided without a language model.
    Done(Result<String, PlannerError>),
    /// Ask the language model to rewrite `prompt` (the trimmed input), then
    /// pass its reply to `accept_llm_rewrite`.
    AskLlm { prompt: String },
}

/// Lowercase form of trimmed text starts like SQL (`select` or `with`).
pub open spec fn looks_like_sql(lower: Seq<char>) -> bool {
    seq_starts_with(lower, "select"@) || seq_starts_with(lower, "with"@)
}

/// Doubles every single quote.
pub open spec fn escape_quotes_spec(s: Seq<char>) -> Seq<char>
    decreases s.len(),
{
    if s.len() == 0 {
        Seq::empty()
    } else if s.last() == '\'' {
        escape_quotes_spec(s.drop_last()) + seq!['\'', '\'']
    } else {
        escape_quotes_spec(s.drop_last()).push(s.last())
    }
}

/// Rule-based rewrite of (trimmed) freeform text into SQL.
pub open spec fn rule_based_spec(input: Seq<char>) -> Seq<char> {
    let lower = str_lowercase(input);
    if seq_starts_with(lower, "["@) && seq_ends_with(lower, "]"@) {
        "SELECT id FROM docs WHERE vector_topk_cosine('"@ + input + "', 10)"@
    } else if seq_contains(lower, "vector_topk"@) {
        "SELECT id FROM docs WHERE "@ + input
    } else if seq_contains(lower, " = "@) || seq_contains(lower, "='"@) {
        "SELECT id FROM docs WHERE "@ + input
    } else {
        "SELECT id FROM docs WHERE vector_topk_cosine(embed('"@ + escape_quotes_spec(input)
            + "'), 10)"@
    }
}

/// Rewrite without a language model: empty input is an error, SQL passes
/// through trimmed, anything else is rewritten by the rules.
pub open spec fn rewrite_sync_spec(input: Seq<char>) -> Result<Seq<char>, PlannerError> {
    let trimmed = trim_spec(input);
    if trimmed.len() == 0 {
        Err(PlannerError::EmptyQuery)
    } else if looks_like_sql(str_lowercase(trimmed)) {
        Ok(trimmed)
    } else {
        Ok(rule_based_spec(trimmed))
    }
}

pub open spec fn result_view(r: Result<String, PlannerError>) -> Result<Seq<char>, PlannerError> {
    match r {
        Ok(s) => Ok(s@),
        Err(e) => Err(e),
    }
}

fn escape_quotes(s: &[char]) -> (r: String)
    ensures
        r@ == escape_quotes_spec(s@),
{
    let mut out = String::new();
    let mut i: usize = 0;
    while i < s.len()
        invariant
            i <= s.len(),
            out@ == escape_quotes_spec(s@.subrange(0, i as int)),
        decreases s.len() - i,
    {
        assert(s@.subrange(0, i + 1).drop_last() =~= s@.subrange(0, i as int));
        if s[i] == '\'' {
            push_char(&mut out, '\'');
            push_char(&mut out, '\'');
            assert(out@ =~= escape_quotes_spec(s@.subrange(0, i + 1)));
        } else {
            push_char(&mut out, s[i]);
        }
        i = i + 1;
    }
    assert(s@.subrange(0, s@.len() as int) =~= s@);
    out
}

fn lower_chars(s: &[char]) -> (r: Vec<char>)
    ensures
        r@ == str_lowercase(s@),
{
    let st = string_from_chars(s);
    let l = to_lowercase(st.as_str());
    chars_of(l.as_str())
}

/// Whether a lowercase, trimmed query is SQL already: it starts with
/// `select` or `with`.
pub fn is_sql(lower: &str) -> (r: bool)
    ensures
        r == looks_like_sql(lower@),
{
    let l = chars_of(lower);
    starts_with(l.as_slice(), "select") || starts_with(l.as_slice(), "with")
}

impl Planner {
    pub fn new(agent_key: Option<String>) -> (r: Self)
        ensures
            r.agent_key == agent_key,
    {
        Planner { agent_key }
    }

    /// Check if input needs a language-model rewrite (not already SQL, key available).
    pub fn needs_llm(&self, input: &str) -> (r: bool)
        ensures
            r == (self.agent_key.is_some() && !looks_like_sql(str_lowercase(trim_spec(input@)))),
    {
        if self.agent_key.is_none() {
            return false;
        }
        let chars = chars_of(input);
        let trimmed = trim_chars(chars.as_slice());
        let lower = lower_chars(trimmed.as_slice());
        let lower_s = string_from_chars(lower.as_slice());
        !is_sql(lower_s.as_str())
    }

    /// Synchronous rewrite — rule-based only, never waits on the network.
    pub fn rewrite_query_sync(&self, input: &str) -> (r: Result<String, PlannerError>)
        ensures
            result_view(r) == rewrite_sync_spec(input@),
    {
        let chars = chars_of(input);
        let trimmed = trim_chars(chars.as_slice());
        if trimmed.len() == 0 {
            return Err(PlannerError::EmptyQuery);
        }
        let lower = lower_chars(trimmed.as_slice());
        if starts_with(lower.as_slice(), "select") || starts_with(lower.as_slice(), "with") {
            return Ok(string_from_chars(trimmed.as_slice()));
        }
        let s = string_from_chars(trimmed.as_slice());
        self.rule_based_rewrite(s.as_str())
    }

    /// Start a rewrite: decided at once when the input is empty, already
    /// SQL, or no agent key is set; otherwise the language model is asked.
    pub fn rewrite_query(&self, input: &str) -> (r: RewriteStep)
        ensures
            ({
                let trimmed = trim_spec(input@);
                if trimmed.len() > 0 && !looks_like_sql(str_lowercase(trimmed))
                    && self.agent_key.is_some() {
                    r matches RewriteStep::AskLlm { prompt } && prompt@ == trimmed
                } else {
                    r matches RewriteStep::Done(res) && result_view(res) == rewrite_sync_spec(
                        input@,
                    )
                }
            }),
    {
        let chars = chars_of(input);
        let trimmed = trim_chars(chars.as_slice());
        if trimmed.len() == 0 {
            return RewriteStep::Done(Err(PlannerError::EmptyQuery));
        }
        let lower = lower_chars(trimmed.as_slice());
        if starts_with(lower.as_slice(), "select") || starts_with(lower.as_slice(), "with") {
            return RewriteStep::Done(Ok(string_from_chars(trimmed.as_slice())));
        }
        let s = string_from_chars(trimmed.as_slice());
        if self.agent_key.is_some() {
            return RewriteStep::AskLlm { prompt: s };
        }
        RewriteStep::Done(self.rule_based_rewrite(s.as_str()))
    }

    /// Finish a rewrite with the language model's reply: a reply that reads
    /// as SQL is used trimmed; otherwise (or without a reply) the rules decide.
    pub fn accept_llm_rewrite(&self, prompt: &str, reply: Option<String>) -> (r: Result<
        String,
        PlannerError,
    >)
        ensures
            result_view(r) == (match reply {
                Some(text) => if looks_like_sql(str_lowercase(trim_spec(text@))) {
                    Ok::<Seq<char>, PlannerError>(trim_spec(text@))
                } else {
                    Ok(rule_based_spec(prompt@))
                },
                None => Ok(rule_based_spec(prompt@)),
            }),
    {
        match reply {
            Some(text) => {
                let chars = chars_of(text.as_str());
                let trimmed = trim_chars(chars.as_slice());
                let lower = lower_chars(trimmed.as_slice());
                if starts_with(lower.as_slice(), "select") || starts_with(lower.as_slice(), "with") {
                    return Ok(string_from_chars(trimmed.as_slice()));
                }
                self.rule_based_rewrite(prompt)
            },
            None => self.rule_based_rewrite(prompt),
        }
    }

    /// Rule-based query rewrite — no external calls.
    pub fn rule_based_rewrite(&self, input: &str) -> (r: Result<String, PlannerError>)
        ensures
            r matches Ok(s) && s@ == rule_based_spec(input@),
    {
        let chars = chars_of(input);
        let lower = lower_chars(chars.as_slice());
        // Vector literal — wrap in topk
        if starts_with(lower.as_slice(), "[") && ends_with(lower.as_slice(), "]") {
            let mut s = "SELECT id FROM docs WHERE vector_topk_cosine('".to_owned();
            s.append(input);
            s.append("', 10)");
            return Ok(s);
        }
        // Already contains vector function call: pass through as WHERE clause
        if contains(lower.as_slice(), "vector_topk") {
            let mut s = "SELECT id FROM docs WHERE ".to_owned();
            s.append(input);
            return Ok(s);
        }
        // Contains = : tag query (possibly with boolean operators)
        if contains(lower.as_slice(), " = ") || contains(lower.as_slice(), "='") {
            let mut s = "SELECT id FROM docs WHERE ".to_owned();
            s.append(input);
            return Ok(s);
        }
        // Default: semantic search via embed()
        let mut s = "SELECT id FROM docs WHERE vector_topk_cosine(embed('".to_owned();
        let esc = escape_quotes(chars.as_slice());
        s.append(esc.as_str());
        s.append("'), 10)");
        Ok(s)
    }
}

/// A vector literal is searched for as a vector.  When the trimmed query,
/// lowercased, is bracketed (`[0.1,0.2,0.3]`), the rewrite is not SQL
/// passthrough but a top-10 cosine search whose query vector is the trimmed
/// query text itself, quoted — it is never sent to `embed(..)` as text.
pub proof fn vector_literal_is_the_query_vector(input: Seq<char>)
    requires
        seq_starts_with(str_lowercase(trim_spec(input)), "["@),
        seq_ends_with(str_lowercase(trim_spec(input)), "]"@),
    ensures
        ({
            let t = trim_spec(input);
            let q = rule_based_spec(t);
            let head = "SELECT id FROM docs WHERE vector_topk_cosine('"@;
            &&& t.len() > 0 ==> rewrite_sync_spec(input) == Ok::<Seq<char>, PlannerError>(q)
            &&& q == head + t + "', 10)"@
            &&& q.subrange(head.len() as int, (head.len() + t.len()) as int) == t
            &&& !seq_starts_with(q, "SELECT id FROM docs WHERE vector_topk_cosine(embed("@)
        }),
{
    let t = trim_spec(input);
    let lower = str_lowercase(t);
    let q = rule_based_spec(t);
    let head = "SELECT id FROM docs WHERE vector_topk_cosine('"@;
    let tail = "', 10)"@;
    let embed = "SELECT id FROM docs WHERE vector_topk_cosine(embed("@;
    reveal_strlit("[");
    reveal_strlit("select");
    reveal_strlit("with");
    reveal_strlit("SELECT id FROM docs WHERE vector_topk_cosine('");
    reveal_strlit("SELECT id FROM docs WHERE vector_topk_cosine(embed(");
    assert(lower.subrange(0, 1) == "["@);
    assert("["@[0] == '[');
    assert(lower.subrange(0, 1)[0] == lower[0]);
    assert(lower[0] == '[');
    assert(!seq_starts_with(lower, "select"@)) by {
        if seq_starts_with(lower, "select"@) {
            assert(lower.subrange(0, 6)[0] == 's');
        }
    }
    assert(!seq_starts_with(lower, "with"@)) by {
        if seq_starts_with(lower, "with"@) {
            assert(lower.subrange(0, 4)[0] == 'w');
        }
    }
    assert(q == head + t + tail);
    assert((head + t + tail).subrange(head.len() as int, (head.len() + t.len()) as int) =~= t);
    assert(q[45] == '\'');
    assert(embed[45] == 'e');
    if seq_starts_with(q, embed) {
        assert(q.subrange(0, embed.len() as int)[45] == q[45]);
    }
}

/// Escaping a query for an SQL string doubles each single quote and keeps
/// every other character, in order.
pub proof fn escaping_doubles_quotes(s: Seq<char>)
    ensures
        escape_quotes_spec(s).filter(|c: char| c != '\'') == s.filter(|c: char| c != '\''),
        escape_quotes_spec(s).filter(|c: char| c == '\'').len() == 2 * s.filter(|c: char| c == '\'').len(),
        escape_quotes_spec(s).len() == s.len() + s.filter(|c: char| c == '\'').len(),
    decreases s.len(),
{
    let nq = |c: char| c != '\'';
    let q = |c: char| c == '\'';
    if s.len() == 0 {
        assert(s.filter(nq) =~= Seq::<char>::empty());
        assert(s.filter(q) =~= Seq::<char>::empty());
        assert(escape_quotes_spec(s).filter(nq) =~= Seq::<char>::empty());
        assert(escape_quotes_spec(s).filter(q) =~= Seq::<char>::empty());
    } else {
        escaping_doubles_quotes(s.drop_last());
        let p = s.drop_last();
        let e = escape_quotes_spec(p);
        assert(s =~= p.push(s.last()));
        p.lemma_filter_push(s.last(), nq);
        p.lemma_filter_push(s.last(), q);
        if s.last() == '\'' {
            assert(e + seq!['\'', '\''] =~= e.push('\'').push('\''));
            e.lemma_filter_push('\'', nq);
            e.push('\'').lemma_filter_push('\'', nq);
            e.lemma_filter_push('\'', q);
            e.push('\'').lemma_filter_push('\'', q);
        } else {
            e.lemma_filter_push(s.last(), nq);
            e.lemma_filter_push(s.last(), q);
        }
    }
}

} // verus!
