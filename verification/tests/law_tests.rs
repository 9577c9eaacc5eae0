use ce_envs::petrinet::{run, validate, Input};
use ce_envs::{dot, parse_pcommands, playground, steps, PCommand, PCommands};
use ce_envs::env::ValidationResult;

fn conn(from: &str, to: &str, amount: &str, to_transition: bool) -> PCommand {
    PCommand::Connection {
        from: from.to_string(),
        to: to.to_string(),
        amount: amount.to_string(),
        to_transition,
        from_transition: !to_transition,
    }
}

fn tokens_of(cmds: &PCommands) -> Vec<(String, usize)> {
    let mut v: Vec<(String, usize)> = cmds
        .0
        .iter()
        .filter_map(|c| match c {
            PCommand::Token(p, n) => Some((p.clone(), *n)),
            _ => None,
        })
        .collect();
    v.sort();
    v
}

#[test]
fn arcs_text_parses_back() {
    let cmds = PCommands(vec![
        conn("p1", "fire", "12", true),
        conn("fire", "P2", "3", false),
        conn("P2", "go", "007", true),
    ]);
    assert_eq!(parse_pcommands(&cmds.to_text()).unwrap(), cmds);
}

#[test]
fn arcs_with_spaced_and_unicode_names_parse_back() {
    let cmds = PCommands(vec![
        conn("my place", "go-on", "2 x", true),
        conn("go-on", "ünïcode place", "a-b", false),
        conn("x>y", "t", "1", true),
    ]);
    assert_eq!(parse_pcommands(&cmds.to_text()).unwrap(), cmds);
}

#[test]
fn token_text_does_not_parse_back() {
    let cmds = PCommands(vec![PCommand::Token("a".to_string(), 3)]);
    assert!(parse_pcommands(&cmds.to_text()).is_err());
}

#[test]
fn steps_compose_on_counts() {
    let n = parse_pcommands("a -> [t] (1); [t] -> b (2); b -> [u] (1); [u] -> a (1); a***;").unwrap();
    let twice = steps(steps(n.clone(), 2), 3);
    let once = steps(n, 5);
    assert_eq!(tokens_of(&twice), tokens_of(&once));
}

#[test]
fn steps_keep_connections_and_drop_empty_counts() {
    let n = parse_pcommands("a -> [t] (1); [t] -> b (1); a*;").unwrap();
    let out = steps(n.clone(), 1);
    let conns: Vec<&PCommand> = out.0.iter().filter(|c| matches!(c, PCommand::Connection { .. })).collect();
    assert_eq!(conns, vec![&n.0[0], &n.0[1]]);
    assert!(out.0.iter().all(|c| !matches!(c, PCommand::Token(_, 0))));
}

#[test]
fn zero_steps_leave_distinct_positive_counts() {
    let n = parse_pcommands("x -> [t] (1); y**; x*;").unwrap();
    assert_eq!(steps(n.clone(), 0), n);
}

#[test]
fn dot_output_is_a_digraph() {
    let out = dot(parse_pcommands("a -> [t] (1); a*;").unwrap()).unwrap();
    assert!(out.starts_with("digraph G {\n"));
    assert!(out.ends_with('}'));
}

#[test]
fn parsed_commands_are_well_formed() {
    let cmds = parse_pcommands("  a  b  -> [ t ] ( 1 );[t] ->  b (x ); c**;").unwrap();
    for c in &cmds.0 {
        match c {
            PCommand::Connection { from, to, amount, to_transition, from_transition } => {
                assert!(to_transition != from_transition);
                assert_eq!(from.trim(), from);
                assert_eq!(to.trim(), to);
                assert_eq!(amount.trim(), amount);
                assert!(!to.is_empty() && !amount.is_empty());
                assert!(!to.contains("->") && !to.contains('*'));
            }
            PCommand::Token(place, n) => {
                assert!(*n >= 1);
                assert!(place.chars().all(char::is_alphanumeric));
            }
        }
    }
}

#[test]
fn reference_outputs_validate() {
    let input = Input { commands: "a -> [t] (1); [t] -> b (1); b -> [u] (1); a**;".to_string(), steps: 2 };
    let out = run(&input).unwrap();
    assert_eq!(validate(&input, &out).unwrap(), ValidationResult::Correct);
    let text = playground::Input { text: "one two three".to_string() };
    let res = playground::run(&text).unwrap();
    assert_eq!(playground::validate(&text, &res).unwrap(), ValidationResult::Correct);
}

#[test]
fn single_word_is_unchanged() {
    assert_eq!(playground::capitalize_every_other_word("Hello\u{1F30E}"), "Hello\u{1F30E}");
}

#[test]
fn marking_places_are_distinct() {
    let n = parse_pcommands("a -> [t] (1); [t] -> b (1); [t] -> b (2); a***; a**;").unwrap();
    let trace = ce_envs::steps::marking_trace(&n, 2).unwrap();
    assert_eq!(trace.len(), 3);
    for marking in &trace {
        let mut names: Vec<&String> = marking.iter().map(|e| &e.0).collect();
        let before = names.len();
        names.sort();
        names.dedup();
        assert_eq!(names.len(), before);
    }
    assert_eq!(trace[0], vec![("a".to_string(), 2)]);
    assert_eq!(trace[1], vec![("a".to_string(), 1), ("b".to_string(), 3)]);
    assert_eq!(trace[2], vec![("a".to_string(), 0), ("b".to_string(), 6)]);
}

#[test]
fn net_with_no_enabled_transition_stays() {
    let n = parse_pcommands("a -> [t] (3); b -> [t] (1); [t] -> c (1); b -> [u] (2); a**; b*;").unwrap();
    for k in 0..4 {
        assert_eq!(steps(n.clone(), k), steps(n.clone(), 0));
    }
}

#[test]
fn each_segment_parses_alone() {
    let src = " a -> [t] (1);; [t] -> b (2) ;\n c** ;";
    let all = parse_pcommands(src).unwrap();
    let segs: Vec<&str> = src.trim().split(';').map(str::trim).filter(|s| !s.is_empty()).collect();
    assert_eq!(all.0.len(), segs.len());
    for (i, g) in segs.iter().enumerate() {
        assert_eq!(parse_pcommands(&format!("{};", g)).unwrap(), PCommands(vec![all.0[i].clone()]));
    }
}

#[test]
fn joined_texts_parse_to_joined_commands() {
    let a = " a -> [t] (1); x*; ";
    let b = "\t[t] -> b (2);";
    let x = parse_pcommands(a).unwrap();
    let y = parse_pcommands(b).unwrap();
    let joined = parse_pcommands(&format!("{a}{b}")).unwrap();
    assert_eq!(joined.0, [x.0, y.0].concat());
}

#[test]
fn capitalizing_twice_changes_nothing_on_ascii() {
    for text in ["one two three four", "  a\tb\n c  d e ", "x", "", "Hello world, this is FOO bar"] {
        let once = playground::capitalize_every_other_word(text);
        let twice = playground::capitalize_every_other_word(&once);
        assert_eq!(twice, once);
    }
    assert_eq!(playground::capitalize_every_other_word("one two three four"), "one TWO three FOUR");
}

#[test]
fn steps_of_written_out_net_continue_the_run() {
    let n = parse_pcommands("a -> [t] (1); [t] -> b (2); b -> [u] (3); [u] -> c (1); a****; c*;").unwrap();
    for m in 0..4 {
        for k in 0..4 {
            let again = steps(steps(n.clone(), m), k);
            let once = steps(n.clone(), m + k);
            assert_eq!(tokens_of(&again), tokens_of(&once));
        }
    }
}
