use ferricula::graph::EdgeKind;
use ferricula::model::DistanceMetric;
use ferricula::repl::{
    command_named, parse_command, parse_connect_args, parse_disconnect_args, parse_metric, parse_topk_args,
    ArgError, ReplCommand,
};

#[test]
fn console_commands_by_first_word() {
    assert_eq!(parse_command("REMEMBER  some text "), (ReplCommand::Remember, "some text".to_string()));
    assert_eq!(parse_command("skg"), (ReplCommand::Skg, String::new()));
    assert_eq!(parse_command("skg weber"), (ReplCommand::SkgTerm, "weber".to_string()));
    assert_eq!(parse_command("skg   "), (ReplCommand::Skg, String::new()));
    assert_eq!(parse_command("frobnicate x"), (ReplCommand::Unknown, "x".to_string()));
    assert_eq!(parse_command(""), (ReplCommand::Unknown, String::new()));
}

#[test]
fn metric_names() {
    assert_eq!(parse_metric("Cosine"), Some(DistanceMetric::Cosine));
    assert_eq!(parse_metric("l2"), Some(DistanceMetric::L2));
    assert_eq!(parse_metric("manhattan"), None);
}

#[test]
fn connect_arguments() {
    assert_eq!(
        parse_connect_args(" 1   2 "),
        Ok((1, 2, "related".to_string(), EdgeKind::Semantic))
    );
    assert_eq!(
        parse_connect_args("3 4 caused causal"),
        Ok((3, 4, "caused".to_string(), EdgeKind::Causal))
    );
    assert_eq!(
        parse_connect_args("3"),
        Err(ArgError::Missing("connect: need at least two IDs"))
    );
    assert_eq!(parse_connect_args("3 x"), Err(ArgError::NotAnId("x".to_string())));
}

#[test]
fn disconnect_arguments() {
    assert_eq!(parse_disconnect_args("5 6"), Ok((5, 6)));
    assert_eq!(parse_disconnect_args("5"), Err(ArgError::Missing("disconnect: missing id2")));
    assert_eq!(parse_disconnect_args("5 6 7"), Err(ArgError::NotAnId("6 7".to_string())));
    assert_eq!(parse_disconnect_args("-1 2"), Err(ArgError::NotAnId("-1".to_string())));
}

#[test]
fn topk_arguments() {
    assert_eq!(
        parse_topk_args("cosine [1,2] 5"),
        Ok(("cosine".to_string(), "[1,2]".to_string(), "5".to_string()))
    );
    assert_eq!(parse_topk_args("cosine"), Err(ArgError::Missing("topk: missing vector")));
    assert_eq!(parse_topk_args("cosine [1,2]"), Err(ArgError::Missing("topk: missing k")));
}

#[test]
fn commands_by_lowercase_word() {
    assert_eq!(command_named("remember", "x"), ReplCommand::Remember);
    assert_eq!(command_named("skg", ""), ReplCommand::Skg);
    assert_eq!(command_named("skg", "weber"), ReplCommand::SkgTerm);
    assert_eq!(command_named("maxid", ""), ReplCommand::MaxId);
    assert_eq!(command_named("REMEMBER", "x"), ReplCommand::Unknown);
}
