use ce_envs::command::{PCommand, PCommands};
use ce_envs::parser::{check_syntax, parse_command, parse_pcommands, PetrinetParsing};

fn conn(from: &str, to: &str, amount: &str, to_transition: bool) -> PCommand {
    PCommand::Connection {
        from: from.to_string(),
        to: to.to_string(),
        amount: amount.to_string(),
        to_transition,
        from_transition: !to_transition,
    }
}

fn err_message(src: &str) -> String {
    match parse_pcommands(src) {
        Ok(_) => panic!("expected an error for {src:?}"),
        Err(e) => e.message,
    }
}

#[test]
fn parses_a_small_net() {
    let parsed = parse_pcommands("a -> [t] (2);\n[t] -> b (1);\na**;").unwrap();
    assert_eq!(
        parsed,
        PCommands(vec![
            conn("a", "t", "2", true),
            conn("t", "b", "1", false),
            PCommand::Token("a".to_string(), 2),
        ])
    );
}

#[test]
fn trims_names_and_skips_empty_pieces() {
    let parsed = parse_pcommands("  p1  ->  [ go ]  ( 3 ) ;;  ; ").unwrap();
    assert_eq!(parsed, PCommands(vec![conn("p1", "go", "3", true)]));
}

#[test]
fn missing_final_semicolon_is_rejected() {
    assert_eq!(err_message("  a -> [t] (2) "), "Invalid command: 'a -> [t] (2)'");
    assert_eq!(err_message(""), "Invalid command: ''");
}

#[test]
fn unclosed_square_bracket() {
    assert_eq!(err_message("a -> [t (2);"), "OK Unclosed sqr_bracket in: 'a -> [t (2)'");
    assert_eq!(err_message("[t -> b (2);"), "OK Unclosed sqr_bracket in: '[t -> b (2)'");
}

#[test]
fn missing_parenthesis() {
    assert_eq!(err_message("a -> [t] 2;"), "Expected '()' after target: 'a -> [t] 2'");
    assert_eq!(err_message("a -> [t] (2;"), "Unclosed bracket in: 'a -> [t] (2'");
}

#[test]
fn invalid_connections() {
    assert_eq!(err_message("a -> [] (2);"), "Invalid connection: 'a -> [] (2)'");
    assert_eq!(err_message("a -> [t] ();"), "Invalid connection: 'a -> [t] ()'");
    assert_eq!(err_message("a -> [t] (2*);"), "Invalid connection syntax: 'a -> [t] (2*)'");
    assert_eq!(err_message("[t] -> b -> c (1);"), "Invalid connection: '[t] -> b -> c (1)'");
}

#[test]
fn token_commands() {
    assert_eq!(
        parse_pcommands("place7***;").unwrap(),
        PCommands(vec![PCommand::Token("place7".to_string(), 3)])
    );
    assert_eq!(parse_pcommands("*;").unwrap(), PCommands(vec![PCommand::Token(String::new(), 1)]));
    assert_eq!(err_message("a*b;"), "Invalid token syntax: 'a*b");
    assert_eq!(err_message("abc;"), "Unrecognized command: 'abc'");
    assert_eq!(err_message("a (3);"), "Invalid token syntax: 'a (3)");
}

#[test]
fn first_error_wins() {
    assert_eq!(err_message("a -> [t] (1); x; y*z;"), "Unrecognized command: 'x'");
}

#[test]
fn parsing_trait_methods() {
    let s: &str = "  [ go ] ";
    assert_eq!(s.extract_transition("cmd").unwrap(), "go");
    let s: &str = "go ";
    assert_eq!(s.extract_transition("cmd").unwrap_err().message, "OK Unclosed sqr_bracket in: 'cmd'");
    let s: &str = " 12 )";
    assert_eq!(s.extract_amount("cmd").unwrap(), "12");
    let s: &str = " b (x) (2) ";
    assert_eq!(s.separate_target_and_amount("cmd").unwrap(), ("b (x) ", "2)"));
}

#[test]
fn check_syntax_cases() {
    assert!(check_syntax("t", "2", "p").is_ok());
    assert_eq!(check_syntax("", "2", "p").unwrap_err().message, "Invalid connection: 'p'");
    assert_eq!(check_syntax("t*", "2", "p").unwrap_err().message, "Invalid connection syntax: 'p'");
}

#[test]
fn parse_single_command() {
    assert_eq!(parse_command("[t] -> b (4)").unwrap(), conn("t", "b", "4", false));
}

#[test]
fn display_then_parse_round_trip_for_arcs() {
    let cmds = PCommands(vec![conn("a", "t", "2", true), conn("t", "b", "1", false)]);
    let text = cmds.to_text();
    assert_eq!(text, "a -> [t] (2);\n[t] -> b (1);\n");
    assert_eq!(parse_pcommands(&text).unwrap(), cmds);
}

#[test]
fn from_str_parses() {
    let cmds: PCommands = "a -> [t] (2);".parse().unwrap();
    assert_eq!(cmds, PCommands(vec![conn("a", "t", "2", true)]));
}
