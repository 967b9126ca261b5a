//! HTTP request routing.
//!
//! Each request is turned into an `HttpCommand` carrying its reply channel;
//! the serving thread and the channels themselves live outside the library.
use vstd::prelude::*;

use crate::text::{
    before_first, chars_eq_str, chars_of, parse_unsigned, parse_unsigned_spec, split_chars,
    split_on, str_eq, take_before, trim_end_char, trim_end_matches_char, trim_start_char,
    trim_start_matches_char, string_from_chars,
};

verus! {

/// Commands sent from the HTTP thread to the main thread.
/// Each variant carries the channel `R` on which the JSON reply is sent.
pub enum HttpCommand<R> {
    Remember { body: String, reply: R },
    Recall { body: String, reply: R },
    Dream { body: String, reply: R },
    Status { reply: R },
    Inspect { id: u32, reply: R },
    Offer { body: String, reply: R },
    Keystone { id: u32, reply: R },
    Connect { body: String, reply: R },
    Disconnect { body: String, reply: R },
    Neighbors { id: u32, reply: R },
    Clock { reply: R },
    Checkpoint { reply: R },
    Identity { reply: R },
    GetRow { id: u32, reply: R },
    Terms { reply: R },
    InversionCheck { id: u32, reply: R },
    Skg { reply: R },
    SkgTerm { term: String, reply: R },
    Delete { id: u32, reply: R },
    MaxId { reply: R },
    Search { body: String, reply: R },
    Hybrid { body: String, reply: R },
    Glossary { reply: R },
}

/// A recognised route, without request body or reply channel.
#[derive(Debug, Clone, Copy, PartialEq, Eq, Structural)]
pub enum Route {
    Remember,
    Recall,
    Dream,
    Status,
    Inspect(u32),
    Offer,
    Keystone(u32),
    Connect,
    Disconnect,
    Neighbors(u32),
    Clock,
    Checkpoint,
    Identity,
    GetRow(u32),
    Terms,
    InversionCheck(u32),
    Skg,
    SkgTerm,
    Delete(u32),
    MaxId,
    Search,
    Hybrid,
    Glossary,
}

/// Outcome of routing a request line.
#[derive(Debug, Clone, Copy, PartialEq, Eq, Structural)]
pub enum RouteResult {
    /// CORS preflight: answered with `{}` at once.
    Preflight,
    Matched(Route),
    /// A route that takes an id was given one that is not a `u32`.
    InvalidId,
    Unknown,
}

/// Path segments of a URL: the part before `?`, without leading and trailing
/// slashes, split at `/`.
pub open spec fn url_segments(url: Seq<char>) -> Seq<Seq<char>> {
    split_on(trim_end_char(trim_start_char(before_first(url, '?'), '/'), '/'), '/')
}

pub open spec fn route_segments(method: Seq<char>, segs: Seq<Seq<char>>) -> RouteResult {
    if method == "OPTIONS"@ {
        RouteResult::Preflight
    } else if (method == "POST"@) && segs.len() == 1 && segs[0] == "remember"@ {
        RouteResult::Matched(Route::Remember)
    } else if (method == "POST"@) && segs.len() == 1 && segs[0] == "recall"@ {
        RouteResult::Matched(Route::Recall)
    } else if (method == "POST"@) && segs.len() == 1 && segs[0] == "dream"@ {
        RouteResult::Matched(Route::Dream)
    } else if (method == "GET"@) && segs.len() == 1 && segs[0] == "status"@ {
        RouteResult::Matched(Route::Status)
    } else if (method == "GET"@) && segs.len() == 2 && segs[0] == "inspect"@ {
        match parse_unsigned_spec(segs[1], 0xffff_ffff) { Some(id) => RouteResult::Matched(Route::Inspect(id as u32)), None => RouteResult::InvalidId }
    } else if (method == "POST"@) && segs.len() == 1 && segs[0] == "offer"@ {
        RouteResult::Matched(Route::Offer)
    } else if (method == "POST"@) && segs.len() == 2 && segs[0] == "keystone"@ {
        match parse_unsigned_spec(segs[1], 0xffff_ffff) { Some(id) => RouteResult::Matched(Route::Keystone(id as u32)), None => RouteResult::InvalidId }
    } else if (method == "POST"@) && segs.len() == 1 && segs[0] == "connect"@ {
        RouteResult::Matched(Route::Connect)
    } else if (method == "POST"@) && segs.len() == 1 && segs[0] == "disconnect"@ {
        RouteResult::Matched(Route::Disconnect)
    } else if (method == "GET"@) && segs.len() == 2 && segs[0] == "neighbors"@ {
        match parse_unsigned_spec(segs[1], 0xffff_ffff) { Some(id) => RouteResult::Matched(Route::Neighbors(id as u32)), None => RouteResult::InvalidId }
    } else if (method == "GET"@) && segs.len() == 1 && segs[0] == "clock"@ {
        RouteResult::Matched(Route::Clock)
    } else if (method == "POST"@) && segs.len() == 1 && segs[0] == "checkpoint"@ {
        RouteResult::Matched(Route::Checkpoint)
    } else if (method == "GET"@) && segs.len() == 1 && segs[0] == "identity"@ {
        RouteResult::Matched(Route::Identity)
    } else if (method == "GET"@) && segs.len() == 2 && segs[0] == "get"@ {
        match parse_unsigned_spec(segs[1], 0xffff_ffff) { Some(id) => RouteResult::Matched(Route::GetRow(id as u32)), None => RouteResult::InvalidId }
    } else if (method == "GET"@) && segs.len() == 1 && segs[0] == "terms"@ {
        RouteResult::Matched(Route::Terms)
    } else if (method == "GET"@) && segs.len() == 2 && segs[0] == "inversion"@ {
        match parse_unsigned_spec(segs[1], 0xffff_ffff) { Some(id) => RouteResult::Matched(Route::InversionCheck(id as u32)), None => RouteResult::InvalidId }
    } else if (method == "GET"@) && segs.len() == 1 && segs[0] == "skg"@ {
        RouteResult::Matched(Route::Skg)
    } else if (method == "GET"@) && segs.len() == 2 && segs[0] == "skg"@ {
        RouteResult::Matched(Route::SkgTerm)
    } else if (method == "DELETE"@ || method == "POST"@) && segs.len() == 2 && segs[0] == "delete"@ {
        match parse_unsigned_spec(segs[1], 0xffff_ffff) { Some(id) => RouteResult::Matched(Route::Delete(id as u32)), None => RouteResult::InvalidId }
    } else if (method == "GET"@) && segs.len() == 1 && segs[0] == "maxid"@ {
        RouteResult::Matched(Route::MaxId)
    } else if (method == "POST"@) && segs.len() == 1 && segs[0] == "search"@ {
        RouteResult::Matched(Route::Search)
    } else if (method == "POST"@) && segs.len() == 1 && segs[0] == "hybrid"@ {
        RouteResult::Matched(Route::Hybrid)
    } else if (method == "GET"@) && segs.len() == 1 && segs[0] == "glossary"@ {
        RouteResult::Matched(Route::Glossary)
    } else {
        RouteResult::Unknown
    }
}

/// Route of a request line.
pub open spec fn route_spec(method: Seq<char>, url: Seq<char>) -> RouteResult {
    route_segments(method, url_segments(url))
}

fn path_segments(url: &str) -> (r: Vec<Vec<char>>)
    ensures
        r@.map_values(|v: Vec<char>| v@) == url_segments(url@),
{
    let chars = chars_of(url);
    let path = take_before(chars.as_slice(), '?');
    let a = trim_start_matches_char(path.as_slice(), '/');
    let b = trim_end_matches_char(a.as_slice(), '/');
    split_chars(b.as_slice(), '/')
}

/// Route a request line to a `Route`.
pub fn route(method: &str, url: &str) -> (r: RouteResult)
    ensures
        r == route_spec(method@, url@),
{
    let segs = path_segments(url);
    let ghost sv = segs@.map_values(|v: Vec<char>| v@);
    assert(sv.len() == segs@.len());
    assert(forall|i: int| 0 <= i < segs@.len() ==> #[trigger] sv[i] == segs@[i]@);
    if str_eq(method, "OPTIONS") {
        RouteResult::Preflight
    } else if (str_eq(method, "POST")) && segs.len() == 1 && chars_eq_str(segs[0].as_slice(), "remember") {
        RouteResult::Matched(Route::Remember)
    } else if (str_eq(method, "POST")) && segs.len() == 1 && chars_eq_str(segs[0].as_slice(), "recall") {
        RouteResult::Matched(Route::Recall)
    } else if (str_eq(method, "POST")) && segs.len() == 1 && chars_eq_str(segs[0].as_slice(), "dream") {
        RouteResult::Matched(Route::Dream)
    } else if (str_eq(method, "GET")) && segs.len() == 1 && chars_eq_str(segs[0].as_slice(), "status") {
        RouteResult::Matched(Route::Status)
    } else if (str_eq(method, "GET")) && segs.len() == 2 && chars_eq_str(segs[0].as_slice(), "inspect") {
        match parse_unsigned(segs[1].as_slice(), 0xffff_ffff) {
            Some(id) => RouteResult::Matched(Route::Inspect(id as u32)),
            None => RouteResult::InvalidId,
        }
    } else if (str_eq(method, "POST")) && segs.len() == 1 && chars_eq_str(segs[0].as_slice(), "offer") {
        RouteResult::Matched(Route::Offer)
    } else if (str_eq(method, "POST")) && segs.len() == 2 && chars_eq_str(segs[0].as_slice(), "keystone") {
        match parse_unsigned(segs[1].as_slice(), 0xffff_ffff) {
            Some(id) => RouteResult::Matched(Route::Keystone(id as u32)),
            None => RouteResult::InvalidId,
        }
    } else if (str_eq(method, "POST")) && segs.len() == 1 && chars_eq_str(segs[0].as_slice(), "connect") {
        RouteResult::Matched(Route::Connect)
    } else if (str_eq(method, "POST")) && segs.len() == 1 && chars_eq_str(segs[0].as_slice(), "disconnect") {
        RouteResult::Matched(Route::Disconnect)
    } else if (str_eq(method, "GET")) && segs.len() == 2 && chars_eq_str(segs[0].as_slice(), "neighbors") {
        match parse_unsigned(segs[1].as_slice(), 0xffff_ffff) {
            Some(id) => RouteResult::Matched(Route::Neighbors(id as u32)),
            None => RouteResult::InvalidId,
        }
    } else if (str_eq(method, "GET")) && segs.len() == 1 && chars_eq_str(segs[0].as_slice(), "clock") {
        RouteResult::Matched(Route::Clock)
    } else if (str_eq(method, "POST")) && segs.len() == 1 && chars_eq_str(segs[0].as_slice(), "checkpoint") {
        RouteResult::Matched(Route::Checkpoint)
    } else if (str_eq(method, "GET")) && segs.len() == 1 && chars_eq_str(segs[0].as_slice(), "identity") {
        RouteResult::Matched(Route::Identity)
    } else if (str_eq(method, "GET")) && segs.len() == 2 && chars_eq_str(segs[0].as_slice(), "get") {
        match parse_unsigned(segs[1].as_slice(), 0xffff_ffff) {
            Some(id) => RouteResult::Matched(Route::GetRow(id as u32)),
            None => RouteResult::InvalidId,
        }
    } else if (str_eq(method, "GET")) && segs.len() == 1 && chars_eq_str(segs[0].as_slice(), "terms") {
        RouteResult::Matched(Route::Terms)
    } else if (str_eq(method, "GET")) && segs.len() == 2 && chars_eq_str(segs[0].as_slice(), "inversion") {
        match parse_unsigned(segs[1].as_slice(), 0xffff_ffff) {
            Some(id) => RouteResult::Matched(Route::InversionCheck(id as u32)),
            None => RouteResult::InvalidId,
        }
    } else if (str_eq(method, "GET")) && segs.len() == 1 && chars_eq_str(segs[0].as_slice(), "skg") {
        RouteResult::Matched(Route::Skg)
    } else if (str_eq(method, "GET")) && segs.len() == 2 && chars_eq_str(segs[0].as_slice(), "skg") {
        RouteResult::Matched(Route::SkgTerm)
    } else if (str_eq(method, "DELETE") || str_eq(method, "POST")) && segs.len() == 2 && chars_eq_str(segs[0].as_slice(), "delete") {
        match parse_unsigned(segs[1].as_slice(), 0xffff_ffff) {
            Some(id) => RouteResult::Matched(Route::Delete(id as u32)),
            None => RouteResult::InvalidId,
        }
    } else if (str_eq(method, "GET")) && segs.len() == 1 && chars_eq_str(segs[0].as_slice(), "maxid") {
        RouteResult::Matched(Route::MaxId)
    } else if (str_eq(method, "POST")) && segs.len() == 1 && chars_eq_str(segs[0].as_slice(), "search") {
        RouteResult::Matched(Route::Search)
    } else if (str_eq(method, "POST")) && segs.len() == 1 && chars_eq_str(segs[0].as_slice(), "hybrid") {
        RouteResult::Matched(Route::Hybrid)
    } else if (str_eq(method, "GET")) && segs.len() == 1 && chars_eq_str(segs[0].as_slice(), "glossary") {
        RouteResult::Matched(Route::Glossary)
    } else {
        RouteResult::Unknown
    }
}

/// The command for a matched route, carrying the body and reply channel.
pub fn route_command<R>(route: Route, body: String, term: String, reply: R) -> (r: HttpCommand<R>)
    ensures
        command_route(&r) == route,
        command_reply(&r) == reply,
        route_carries_body(route) ==> command_body(&r) == Some(body),
        route == Route::SkgTerm ==> command_term(&r) == Some(term),
{
    match route {
        Route::Remember => HttpCommand::Remember { body, reply },
        Route::Recall => HttpCommand::Recall { body, reply },
        Route::Dream => HttpCommand::Dream { body, reply },
        Route::Status => HttpCommand::Status { reply },
        Route::Inspect(id) => HttpCommand::Inspect { id, reply },
        Route::Offer => HttpCommand::Offer { body, reply },
        Route::Keystone(id) => HttpCommand::Keystone { id, reply },
        Route::Connect => HttpCommand::Connect { body, reply },
        Route::Disconnect => HttpCommand::Disconnect { body, reply },
        Route::Neighbors(id) => HttpCommand::Neighbors { id, reply },
        Route::Clock => HttpCommand::Clock { reply },
        Route::Checkpoint => HttpCommand::Checkpoint { reply },
        Route::Identity => HttpCommand::Identity { reply },
        Route::GetRow(id) => HttpCommand::GetRow { id, reply },
        Route::Terms => HttpCommand::Terms { reply },
        Route::InversionCheck(id) => HttpCommand::InversionCheck { id, reply },
        Route::Skg => HttpCommand::Skg { reply },
        Route::SkgTerm => HttpCommand::SkgTerm { term, reply },
        Route::Delete(id) => HttpCommand::Delete { id, reply },
        Route::MaxId => HttpCommand::MaxId { reply },
        Route::Search => HttpCommand::Search { body, reply },
        Route::Hybrid => HttpCommand::Hybrid { body, reply },
        Route::Glossary => HttpCommand::Glossary { reply },
    }
}

/// The route a command was built from.
pub open spec fn command_route<R>(c: &HttpCommand<R>) -> Route {
    match c {
        HttpCommand::Remember { .. } => Route::Remember,
        HttpCommand::Recall { .. } => Route::Recall,
        HttpCommand::Dream { .. } => Route::Dream,
        HttpCommand::Status { .. } => Route::Status,
        HttpCommand::Inspect { id, .. } => Route::Inspect(*id),
        HttpCommand::Offer { .. } => Route::Offer,
        HttpCommand::Keystone { id, .. } => Route::Keystone(*id),
        HttpCommand::Connect { .. } => Route::Connect,
        HttpCommand::Disconnect { .. } => Route::Disconnect,
        HttpCommand::Neighbors { id, .. } => Route::Neighbors(*id),
        HttpCommand::Clock { .. } => Route::Clock,
        HttpCommand::Checkpoint { .. } => Route::Checkpoint,
        HttpCommand::Identity { .. } => Route::Identity,
        HttpCommand::GetRow { id, .. } => Route::GetRow(*id),
        HttpCommand::Terms { .. } => Route::Terms,
        HttpCommand::InversionCheck { id, .. } => Route::InversionCheck(*id),
        HttpCommand::Skg { .. } => Route::Skg,
        HttpCommand::SkgTerm { .. } => Route::SkgTerm,
        HttpCommand::Delete { id, .. } => Route::Delete(*id),
        HttpCommand::MaxId { .. } => Route::MaxId,
        HttpCommand::Search { .. } => Route::Search,
        HttpCommand::Hybrid { .. } => Route::Hybrid,
        HttpCommand::Glossary { .. } => Route::Glossary,
    }
}

/// The reply channel a command carries.
pub open spec fn command_reply<R>(c: &HttpCommand<R>) -> R {
        match c {
            HttpCommand::Remember { reply, .. } => *reply,
            HttpCommand::Recall { reply, .. } => *reply,
            HttpCommand::Dream { reply, .. } => *reply,
            HttpCommand::Status { reply, .. } => *reply,
            HttpCommand::Inspect { reply, .. } => *reply,
            HttpCommand::Offer { reply, .. } => *reply,
            HttpCommand::Keystone { reply, .. } => *reply,
            HttpCommand::Connect { reply, .. } => *reply,
            HttpCommand::Disconnect { reply, .. } => *reply,
            HttpCommand::Neighbors { reply, .. } => *reply,
            HttpCommand::Clock { reply, .. } => *reply,
            HttpCommand::Checkpoint { reply, .. } => *reply,
            HttpCommand::Identity { reply, .. } => *reply,
            HttpCommand::GetRow { reply, .. } => *reply,
            HttpCommand::Terms { reply, .. } => *reply,
            HttpCommand::InversionCheck { reply, .. } => *reply,
            HttpCommand::Skg { reply, .. } => *reply,
            HttpCommand::SkgTerm { reply, .. } => *reply,
            HttpCommand::Delete { reply, .. } => *reply,
            HttpCommand::MaxId { reply, .. } => *reply,
            HttpCommand::Search { reply, .. } => *reply,
            HttpCommand::Hybrid { reply, .. } => *reply,
            HttpCommand::Glossary { reply, .. } => *reply,
        }
}

/// The request body a command carries, for the routes that take one.
pub open spec fn command_body<R>(c: &HttpCommand<R>) -> Option<String> {
        match c {
            HttpCommand::Remember { body, .. } => Some(*body),
            HttpCommand::Recall { body, .. } => Some(*body),
            HttpCommand::Dream { body, .. } => Some(*body),
            HttpCommand::Offer { body, .. } => Some(*body),
            HttpCommand::Connect { body, .. } => Some(*body),
            HttpCommand::Disconnect { body, .. } => Some(*body),
            HttpCommand::Search { body, .. } => Some(*body),
            HttpCommand::Hybrid { body, .. } => Some(*body),
            _ => None,
        }
}

/// The term a `SkgTerm` command carries.
pub open spec fn command_term<R>(c: &HttpCommand<R>) -> Option<String> {
    match c {
        HttpCommand::SkgTerm { term, .. } => Some(*term),
        _ => None,
    }
}

/// Routes whose command carries the request body.
pub open spec fn route_carries_body(rt: Route) -> bool {
    rt == Route::Remember || rt == Route::Recall || rt == Route::Dream || rt == Route::Offer || rt == Route::Connect || rt == Route::Disconnect || rt == Route::Search || rt == Route::Hybrid
}

/// Result of dispatching a request.
pub enum Dispatch<R> {
    /// Reply `{}` without involving the main thread.
    Preflight,
    /// Send this command and wait for its reply.
    Send(HttpCommand<R>),
    /// Answer with HTTP 400 and this message.
    Reject(String),
}

/// The rejection message for an unknown route: `unknown route: METHOD URL`.
pub open spec fn unknown_route_message(method: Seq<char>, url: Seq<char>) -> Seq<char> {
    "unknown route: "@ + method + " "@ + url
}

/// Route a request to the appropriate `HttpCommand`.
pub fn dispatch<R>(method: &str, url: &str, body: String, reply: R) -> (r: Dispatch<R>)
    ensures
        match route_spec(method@, url@) {
            RouteResult::Preflight => r is Preflight,
            RouteResult::Matched(rt) => r matches Dispatch::Send(c) && command_route(&c) == rt
                && (rt == Route::SkgTerm ==> (command_term(&c) matches Some(term) && term@
                == url_segments(url@)[1])),
            RouteResult::InvalidId => r matches Dispatch::Reject(m) && m@ == "invalid id"@,
            RouteResult::Unknown => r matches Dispatch::Reject(m) && m@ == unknown_route_message(
                method@,
                url@,
            ),
        },
        r matches Dispatch::Send(c) ==> command_reply(&c) == reply,
        r matches Dispatch::Send(c) ==> (route_carries_body(command_route(&c)) ==> command_body(&c)
            == Some(body)),
{
    let rt = route(method, url);
    match rt {
        RouteResult::Preflight => Dispatch::Preflight,
        RouteResult::Matched(route) => {
            let term = match route {
                Route::SkgTerm => {
                    let segs = path_segments(url);
                    assert(segs@[1]@ == url_segments(url@)[1]);
                    string_from_chars(segs[1].as_slice())
                },
                _ => String::new(),
            };
            Dispatch::Send(route_command(route, body, term, reply))
        },
        RouteResult::InvalidId => Dispatch::Reject("invalid id".to_owned()),
        RouteResult::Unknown => {
            let mut m = "unknown route: ".to_owned();
            m.append(method);
            m.append(" ");
            m.append(url);
            Dispatch::Reject(m)
        },
    }
}

/// JSON string escaping of one character.
pub open spec fn escape_char(c: char) -> Seq<char> {
    if c == '\\' {
        seq!['\\', '\\']
    } else if c == '"' {
        seq!['\\', '"']
    } else if c == '\n' {
        seq!['\\', 'n']
    } else if c == '\r' {
        seq!['\\', 'r']
    } else if c == '\t' {
        seq!['\\', 't']
    } else {
        seq![c]
    }
}

/// JSON string escaping of a whole string.
pub open spec fn escape_json_spec(s: Seq<char>) -> Seq<char>
    decreases s.len(),
{
    if s.len() == 0 {
        Seq::empty()
    } else {
        escape_json_spec(s.drop_last()) + escape_char(s.last())
    }
}

/// Escape a string for inclusion in a JSON string value.
pub fn escape_json(s: &str) -> (r: String)
    ensures
        r@ == escape_json_spec(s@),
{
    let chars = chars_of(s);
    let mut out = String::new();
    let mut i: usize = 0;
    while i < chars.len()
        invariant
            i <= chars.len(),
            out@ == escape_json_spec(chars@.subrange(0, i as int)),
        decreases chars.len() - i,
    {
        let c = chars[i];
        assert(chars@.subrange(0, i + 1).drop_last() =~= chars@.subrange(0, i as int));
        proof {
            reveal_strlit("\\\\");
            reveal_strlit("\\\"");
            reveal_strlit("\\n");
            reveal_strlit("\\r");
            reveal_strlit("\\t");
        }
        if c == '\\' {
            out.append("\\\\");
        } else if c == '"' {
            out.append("\\\"");
        } else if c == '\n' {
            out.append("\\n");
        } else if c == '\r' {
            out.append("\\r");
        } else if c == '\t' {
            out.append("\\t");
        } else {
            crate::text::push_char(&mut out, c);
        }
        i = i + 1;
    }
    assert(chars@.subrange(0, chars@.len() as int) =~= chars@);
    out
}

/// The path word that names a route: the first segment of its URL.
pub open spec fn route_word(r: Route) -> Seq<char> {
    match r {
        Route::Remember => "remember"@,
        Route::Recall => "recall"@,
        Route::Dream => "dream"@,
        Route::Status => "status"@,
        Route::Inspect(_) => "inspect"@,
        Route::Offer => "offer"@,
        Route::Keystone(_) => "keystone"@,
        Route::Connect => "connect"@,
        Route::Disconnect => "disconnect"@,
        Route::Neighbors(_) => "neighbors"@,
        Route::Clock => "clock"@,
        Route::Checkpoint => "checkpoint"@,
        Route::Identity => "identity"@,
        Route::GetRow(_) => "get"@,
        Route::Terms => "terms"@,
        Route::InversionCheck(_) => "inversion"@,
        Route::Skg => "skg"@,
        Route::SkgTerm => "skg"@,
        Route::Delete(_) => "delete"@,
        Route::MaxId => "maxid"@,
        Route::Search => "search"@,
        Route::Hybrid => "hybrid"@,
        Route::Glossary => "glossary"@,
    }
}

/// The id a route carries, if it takes one.
pub open spec fn route_id(r: Route) -> Option<u32> {
    match r {
        Route::Inspect(id) => Some(id),
        Route::Keystone(id) => Some(id),
        Route::Neighbors(id) => Some(id),
        Route::GetRow(id) => Some(id),
        Route::InversionCheck(id) => Some(id),
        Route::Delete(id) => Some(id),
        _ => None,
    }
}

/// Whether a route is reached by a request of this method: the reads by
/// `GET`, the changes by `POST`, and a delete by `DELETE` or `POST`.
pub open spec fn route_method(r: Route, method: Seq<char>) -> bool {
    match r {
        Route::Status | Route::Inspect(_) | Route::Neighbors(_) | Route::Clock | Route::Identity | Route::GetRow(_)
        | Route::Terms | Route::InversionCheck(_) | Route::Skg | Route::SkgTerm | Route::MaxId | Route::Glossary =>
            method == "GET"@,
        Route::Delete(_) => method == "DELETE"@ || method == "POST"@,
        _ => method == "POST"@,
    }
}

/// Each path names its own command: a request is matched to a route only
/// when the first segment of its path is that route's word and its method
/// is one the route answers, a route that takes an id gets the number
/// written in the second segment (the others have no second segment but
/// `skg/<term>`), and so two
/// requests matched to the same route have the same first segment (and the
/// same id).
pub proof fn routes_are_named_by_their_path(method: Seq<char>, url: Seq<char>, r: Route)
    requires
        route_spec(method, url) == RouteResult::Matched(r),
    ensures
        url_segments(url).len() >= 1,
        url_segments(url)[0] == route_word(r),
        route_method(r, method),
        route_id(r) is None ==> url_segments(url).len() == (if r is SkgTerm { 2int } else { 1int }),
        route_id(r) is Some ==> url_segments(url).len() == 2 && parse_unsigned_spec(url_segments(url)[1], 0xffff_ffff)
            == Some(route_id(r)->0 as nat),
{
}

/// Two requests matched to the same route have the same first path segment.
pub proof fn route_paths_are_distinct(m1: Seq<char>, u1: Seq<char>, m2: Seq<char>, u2: Seq<char>, r: Route)
    requires
        route_spec(m1, u1) == RouteResult::Matched(r),
        route_spec(m2, u2) == RouteResult::Matched(r),
    ensures
        url_segments(u1)[0] == url_segments(u2)[0],
{
    routes_are_named_by_their_path(m1, u1, r);
    routes_are_named_by_their_path(m2, u2, r);
}

} // verus!
