use ce_envs::command::{PCommand, PCommands, ParseError};

#[test]
fn command_text() {
    let into = PCommand::Connection {
        from: "a".to_string(),
        to: "t".to_string(),
        amount: "2".to_string(),
        to_transition: true,
        from_transition: false,
    };
    let out = PCommand::Connection {
        from: "t".to_string(),
        to: "b".to_string(),
        amount: "1".to_string(),
        to_transition: false,
        from_transition: true,
    };
    let neither = PCommand::Connection {
        from: "x".to_string(),
        to: "y".to_string(),
        amount: "5".to_string(),
        to_transition: false,
        from_transition: false,
    };
    assert_eq!(into.to_text(), "a -> [t] (2);");
    assert_eq!(out.to_text(), "[t] -> b (1);");
    assert_eq!(neither.to_text(), "x -> y (5);");
    assert_eq!(PCommand::Token("p".to_string(), 120).to_text(), "p (120);");
    assert_eq!(PCommand::Token("p".to_string(), 0).to_text(), "p (0);");
    assert_eq!(PCommands(vec![into, PCommand::Token("a".to_string(), 3)]).to_text(), "a -> [t] (2);\na (3);\n");
    assert_eq!(PCommands::default().to_text(), "");
}

#[test]
fn parse_error_text() {
    let e = ParseError::new("boom".to_string());
    assert_eq!(e.to_text(), "boom");
    assert_eq!(e.message, "boom");
}
