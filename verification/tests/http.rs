use ferricula::http::{dispatch, escape_json, route, Dispatch, Route, RouteResult};

#[test]
fn routes_recognised() {
    assert_eq!(route("OPTIONS", "/anything"), RouteResult::Preflight);
    assert_eq!(route("POST", "/remember"), RouteResult::Matched(Route::Remember));
    assert_eq!(route("GET", "/inspect/42?x=1"), RouteResult::Matched(Route::Inspect(42)));
    assert_eq!(route("GET", "/inspect/abc"), RouteResult::InvalidId);
    assert_eq!(route("GET", "/nowhere"), RouteResult::Unknown);
}

#[test]
fn dispatch_rejects_unknown() {
    match dispatch("GET", "/nowhere", String::new(), ()) {
        Dispatch::Reject(msg) => assert_eq!(msg, "unknown route: GET /nowhere"),
        _ => panic!("expected a rejection"),
    }
    assert!(matches!(dispatch("OPTIONS", "/x", String::new(), ()), Dispatch::Preflight));
}

#[test]
fn escape_json_quotes_and_controls() {
    assert_eq!(escape_json("a\"b\\c\nd"), "a\\\"b\\\\c\\nd");
}
