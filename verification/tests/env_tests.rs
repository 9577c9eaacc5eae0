use ce_envs::env::{EnvError, ValidationResult};
use ce_envs::petrinet::{build_input, net_arcs, run, try_run, validate, ArcDraws, Input, Output};
use ce_envs::playground;
use rand::SeedableRng;

#[test]
fn petrinet_run() {
    let input = Input {
        commands: "a -> [t] (1); [t] -> b (1); b -> [u] (1); a**;".to_string(),
        steps: 1,
    };
    let out = run(&input).unwrap();
    assert_eq!(
        out.dot,
        "digraph G {\n\"a\"[label=\"a*\"]; \"a\" -> \"t\" [label=\"1\"]; \"t\"[label=\"t\",group=\"transition\"];\n\"t\"[label=\"t\",group=\"transition\"]; \"t\" -> \"b\" [label=\"1\"]; \"b\"[label=\"b*\"];\n\"b\"[label=\"b*\"]; \"b\" -> \"u\" [label=\"1\"]; \"u\"[label=\"u\",group=\"transition\"];\n}"
    );
    assert_eq!(
        out.map,
        vec![vec![("a".to_string(), 2)], vec![("a".to_string(), 1), ("b".to_string(), 1)]]
    );
}

#[test]
fn petrinet_run_parse_error() {
    let input = Input { commands: "oops".to_string(), steps: 1 };
    match run(&input) {
        Err(EnvError::InvalidInputForProgram { message, source }) => {
            assert_eq!(message, "failed to parse commands");
            assert_eq!(source.message, "Invalid command: 'oops'");
        }
        _ => panic!("expected an error"),
    }
}

#[test]
fn petrinet_run_token_on_output_only_place() {
    let input = Input { commands: "a -> [t] (1); [t] -> b (1); a**;".to_string(), steps: 1 };
    match run(&input) {
        Err(EnvError::InvalidInputForProgram { message, source }) => {
            assert_eq!(message, "failed to generate DOT");
            assert_eq!(source.message, "Place 'b' doesn't exist in the petrinet");
        }
        _ => panic!("expected an error"),
    }
}

#[test]
fn petrinet_run_dot_error() {
    let input = Input { commands: "[t] -> b (1);".to_string(), steps: 0 };
    match try_run(&input) {
        Some(Err(EnvError::InvalidInputForProgram { message, source })) => {
            assert_eq!(message, "failed to generate DOT");
            assert_eq!(source.message, "Transition 't' doesn't have an entry");
        }
        _ => panic!("expected an error"),
    }
}

#[test]
fn petrinet_validate() {
    let input = Input {
        commands: "a -> [t] (1); [t] -> b (1); b -> [u] (1); a**;".to_string(),
        steps: 1,
    };
    let reference = run(&input).unwrap();
    assert_eq!(validate(&input, &reference).unwrap(), ValidationResult::Correct);
    let reordered = Output { dot: String::new(), map: vec![vec![("a".to_string(), 2)]] };
    assert_eq!(validate(&input, &reordered).unwrap(), ValidationResult::Correct);
    let wrong = Output { dot: String::new(), map: vec![vec![("a".to_string(), 3)]] };
    assert_eq!(
        validate(&input, &wrong).unwrap(),
        ValidationResult::Mismatch { reason: "Initial state mismatch".to_string() }
    );
    let extra = Output {
        dot: String::new(),
        map: vec![vec![("a".to_string(), 2), ("z".to_string(), 0)]],
    };
    assert_eq!(
        validate(&input, &extra).unwrap(),
        ValidationResult::Mismatch { reason: "Initial state mismatch".to_string() }
    );
}

#[test]
fn petrinet_generated_inputs() {
    let mut rng = rand::rngs::StdRng::seed_from_u64(7);
    for _ in 0..20 {
        let input = Input::gn(&mut rng);
        assert_eq!(input.steps, 0);
        assert!(input.commands.contains(" -> ["));
        assert!(input.commands.ends_with(");\n"));
        let lines: Vec<&str> = input.commands.lines().collect();
        assert!(lines.len() >= 5 && lines.len() <= 15);
    }
}

#[test]
fn capitalize() {
    assert_eq!(playground::capitalize_every_other_word("hello world foo bar"), "hello WORLD foo BAR");
    assert_eq!(playground::capitalize_every_other_word("a  b\nc d"), "a  B\nc D");
    assert_eq!(playground::capitalize_every_other_word("  lead trail  "), "  lead TRAIL  ");
    assert_eq!(playground::capitalize_every_other_word(""), "");
    assert_eq!(playground::capitalize_every_other_word("single"), "single");
    assert_eq!(playground::capitalize_every_other_word("x stra\u{df}e"), "x STRASSE");
}

#[test]
fn playground_run_and_validate() {
    let input = playground::Input { text: "Rust is fun".to_string() };
    let out = playground::run(&input).unwrap();
    assert_eq!(out.result, "Rust IS fun");
    assert_eq!(playground::validate(&input, &out).unwrap(), ValidationResult::Correct);
    let wrong = playground::Output { result: "rust is fun".to_string() };
    assert_eq!(
        playground::validate(&input, &wrong).unwrap(),
        ValidationResult::Mismatch { reason: "Did not produce same as reference.".to_string() }
    );
}

#[test]
fn playground_generated_inputs() {
    let mut rng = rand::rngs::StdRng::seed_from_u64(11);
    for _ in 0..20 {
        let input = playground::Input::gn(&mut rng);
        let words: Vec<&str> = input.text.split_whitespace().collect();
        assert!(words.len() >= 3 && words.len() <= 8);
        assert!(!input.text.starts_with(' ') && !input.text.ends_with(' '));
    }
}

#[test]
fn capitalize_ascii_examples() {
    assert_eq!(playground::capitalize_every_other_word("hello big world"), "hello BIG world");
    assert_eq!(playground::capitalize_every_other_word("a  b\nc d "), "a  B\nc D ");
    let text = "one, two! three 4x five\tsix";
    let once = playground::capitalize_every_other_word(text);
    assert_eq!(once.len(), text.len());
    assert_eq!(once.to_ascii_lowercase(), text.to_ascii_lowercase());
    for (a, b) in once.chars().zip(text.chars()) {
        assert_eq!(a.is_whitespace(), b.is_whitespace());
    }
    assert_eq!(playground::capitalize_every_other_word(&once), once);
}

#[test]
fn build_text_from_draws() {
    let input = playground::build_text(&vec![0, 1, 4], &vec![(2, 1), (1, 0)]);
    assert_eq!(input.text, "Hello  \nworld is");
    let single = playground::build_text(&vec![16], &vec![]);
    assert_eq!(single.text, "\u{1F609}");
}

#[test]
fn net_from_draws() {
    let d = ArcDraws {
        places: 3,
        transitions: 2,
        into: vec![(0, 1), (2, 3)],
        out_of: vec![(1, 2), (0, 1)],
        extra: vec![(false, 2, 1, 3), (true, 1, 0, 2)],
    };
    let (arcs, used) = net_arcs(&d);
    assert_eq!(used, vec!["a".to_string(), "c".to_string(), "b".to_string()]);
    let input = build_input(arcs, &used, &vec![2, 0, 1], &vec![4, 1]);
    assert_eq!(input.steps, 0);
    assert_eq!(
        input.commands,
        "a -> [process] (1);\nc -> [complete] (3);\n[process] -> b (2);\n[complete] -> a (1);\n\
         [complete] -> c (3);\nb -> [process] (2);\nb (4);\na (1);\n"
    );
}
