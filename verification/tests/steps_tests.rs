use ce_envs::command::{PCommand, PCommands};
use ce_envs::parser::parse_pcommands;
use ce_envs::steps::{marking_trace, steps, try_steps};

fn token(p: &str, n: usize) -> PCommand {
    PCommand::Token(p.to_string(), n)
}

fn net(src: &str) -> PCommands {
    parse_pcommands(src).unwrap()
}

fn tokens_of(cmds: &PCommands) -> Vec<(String, usize)> {
    cmds.0
        .iter()
        .filter_map(|c| match c {
            PCommand::Token(p, n) => Some((p.clone(), *n)),
            _ => None,
        })
        .collect()
}

#[test]
fn one_transition_moves_tokens() {
    let n = net("a -> [t] (1); [t] -> b (1); a**;");
    let one = steps(n.clone(), 1);
    assert_eq!(tokens_of(&one), vec![("a".to_string(), 1), ("b".to_string(), 1)]);
    let two = steps(n.clone(), 2);
    assert_eq!(tokens_of(&two), vec![("b".to_string(), 2)]);
    let three = steps(n, 3);
    assert_eq!(tokens_of(&three), vec![("b".to_string(), 2)]);
}

#[test]
fn zero_steps_keeps_the_net() {
    let n = net("a -> [t] (1); [t] -> b (1); a**;");
    assert_eq!(steps(n.clone(), 0), n);
}

#[test]
fn connections_are_kept_in_order() {
    let n = net("a -> [t] (1); [t] -> b (1); a**;");
    let out = steps(n.clone(), 2);
    assert_eq!(out.0[0], n.0[0]);
    assert_eq!(out.0[1], n.0[1]);
}

#[test]
fn weights_are_respected() {
    let n = net("a -> [t] (2); [t] -> b (3); a***;");
    let out = steps(n, 1);
    assert_eq!(tokens_of(&out), vec![("a".to_string(), 1), ("b".to_string(), 3)]);
}

#[test]
fn a_transition_short_of_tokens_does_not_fire() {
    let n = net("a -> [t] (4); [t] -> b (1); a***;");
    let out = steps(n, 5);
    assert_eq!(tokens_of(&out), vec![("a".to_string(), 3)]);
}

#[test]
fn conflicting_transitions_first_one_wins() {
    let n = net("a -> [t] (1); a -> [u] (1); [t] -> b (1); [u] -> c (1); a*;");
    let out = steps(n, 1);
    assert_eq!(tokens_of(&out), vec![("b".to_string(), 1)]);
}

#[test]
fn both_transitions_fire_when_enough_tokens() {
    let n = net("a -> [t] (1); a -> [u] (1); [t] -> b (1); [u] -> c (1); a**;");
    let out = steps(n, 1);
    assert_eq!(tokens_of(&out), vec![("b".to_string(), 1), ("c".to_string(), 1)]);
}

#[test]
fn non_numeric_amount_weighs_nothing() {
    let n = net("a -> [t] (x); [t] -> b (y); a*;");
    let out = steps(n, 3);
    assert_eq!(tokens_of(&out), vec![("a".to_string(), 1)]);
}

#[test]
fn duplicate_token_commands_use_the_last_count() {
    let n = PCommands(vec![token("a", 1), token("a", 4)]);
    let out = steps(n, 0);
    assert_eq!(out, PCommands(vec![token("a", 4), token("a", 4)]));
}

#[test]
fn overflow_is_reported() {
    let n = PCommands(vec![
        PCommand::Connection {
            from: "t".to_string(),
            to: "b".to_string(),
            amount: "18446744073709551615".to_string(),
            to_transition: false,
            from_transition: true,
        },
        PCommand::Connection {
            from: "a".to_string(),
            to: "t".to_string(),
            amount: "0".to_string(),
            to_transition: true,
            from_transition: false,
        },
        token("b", 1),
    ]);
    if usize::MAX as u128 == u64::MAX as u128 {
        assert!(try_steps(&n, 1).is_none());
    }
    assert!(try_steps(&n, 0).is_some());
}

#[test]
fn trace_lists_counts_after_each_step() {
    let n = net("a -> [t] (1); [t] -> b (1); a**;");
    let trace = marking_trace(&n, 2).unwrap();
    assert_eq!(
        trace,
        vec![
            vec![("a".to_string(), 2)],
            vec![("a".to_string(), 1), ("b".to_string(), 1)],
            vec![("a".to_string(), 0), ("b".to_string(), 2)],
        ]
    );
}
