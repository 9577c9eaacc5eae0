use ce_envs::command::{PCommand, PCommands};
use ce_envs::dot_generator::dot;
use ce_envs::parser::parse_pcommands;

#[test]
fn renders_a_small_net() {
    let cmds = parse_pcommands("a -> [t] (1); [t] -> b (2); a**;").unwrap();
    let out = dot(cmds).unwrap();
    assert_eq!(
        out,
        "digraph G {\n\"a\"[label=\"a**\"]; \"a\" -> \"t\" [label=\"1\"]; \"t\"[label=\"t\",group=\"transition\"];\n\"t\"[label=\"t\",group=\"transition\"]; \"t\" -> \"b\" [label=\"2\"]; \"b\"[label=\"b\"];\n}"
    );
}

#[test]
fn empty_net() {
    assert_eq!(dot(PCommands(vec![])).unwrap(), "digraph G {\n}");
}

#[test]
fn names_are_quoted_and_escaped() {
    let cmds = PCommands(vec![PCommand::Connection {
        from: "a\"b".to_string(),
        to: "t".to_string(),
        amount: "1".to_string(),
        to_transition: true,
        from_transition: false,
    }]);
    let out = dot(cmds).unwrap();
    assert!(out.starts_with("digraph G {\n\"a\\\"b\"[label=\"a\"b\"];"));
}

#[test]
fn transition_without_entry() {
    let cmds = parse_pcommands("[t] -> b (2);").unwrap();
    assert_eq!(dot(cmds).unwrap_err().message, "Transition 't' doesn't have an entry");
}

#[test]
fn both_ends_transitions() {
    let cmds = PCommands(vec![PCommand::Connection {
        from: "t".to_string(),
        to: "u".to_string(),
        amount: "1".to_string(),
        to_transition: true,
        from_transition: true,
    }]);
    assert_eq!(dot(cmds).unwrap_err().message, "Invalid connection: both ends cannot be transitions");
}

#[test]
fn token_on_unknown_place() {
    let cmds = parse_pcommands("a -> [t] (1); [t] -> b (1); b*;").unwrap();
    assert_eq!(dot(cmds).unwrap_err().message, "Place 'b' doesn't exist in the petrinet");
}

#[test]
fn token_marks_every_label_of_the_place() {
    let cmds = parse_pcommands("a -> [t] (1); a -> [u] (1); a*;").unwrap();
    let out = dot(cmds).unwrap();
    assert_eq!(out.matches("[label=\"a*\"]").count(), 2);
}
