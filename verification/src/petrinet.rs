//! The Petri-net environment: its input and output, the reference run and
//! the check of a submitted output.
use vstd::prelude::*;

use crate::command::{cmds_view, commands_text, Cmd, PCommand, PCommands};
use crate::dot_generator::{contains_name, dot, dot_spec, names_view};
use crate::random::{random_inclusive, shuffle};
use crate::text::{decimal, decimal_string};
use rand::rngs::StdRng;
use crate::env::{EnvError, ValidationResult};
use crate::parser::{parse_pcommands, parse_spec};
use crate::steps::{
    assoc_get, counts_view, get_count, is_trace, lemma_key_index, key_index, marking_after,
    marking_trace, steps_spec, try_steps, trace_entry, Assoc,
};

verus! {

/// The input of the environment: the text of a net, and how many steps
/// to simulate.
pub struct Input {
    pub commands: String,
    pub steps: usize,
}

/// The output of the environment: the DOT graph of the net after the
/// steps, and the token counts before the first step and after each step.
pub struct Output {
    pub dot: String,
    pub map: Vec<Vec<(String, usize)>>,
}

/// Whether the reference run on `input` ends without a count leaving the
/// range of `usize`.
pub open spec fn run_defined(input: &Input) -> bool {
    parse_spec(input.commands@) matches Ok(cs) ==> marking_after(cs, input.steps as nat) is Some
}

/// Whether `e` is the error `message` caused by `source`.
pub open spec fn is_env_error(e: EnvError, message: Seq<char>, source: Seq<char>) -> bool {
    e matches EnvError::InvalidInputForProgram { message: m, source: s } && m@ == message && s@
        == source
}

/// What the reference run gives for `input`: the parse error, the
/// rendering error, or the DOT graph of the net after the steps together
/// with the counts after each step.
pub open spec fn run_result(input: &Input, r: Result<Output, EnvError>) -> bool {
    match parse_spec(input.commands@) {
        Err(e) => r matches Err(err) && is_env_error(err, "failed to parse commands"@, e),
        Ok(cs) => match dot_spec(steps_spec(cs, input.steps as nat)->0) {
            Err(e) => r matches Err(err) && is_env_error(err, "failed to generate DOT"@, e),
            Ok(d) => r matches Ok(out) && out.dot@ == d && is_trace(
                out.map@,
                cs,
                input.steps as nat,
            ),
        },
    }
}

/// The reference run, or `None` where a count would leave the range of
/// `usize`.
pub fn try_run(input: &Input) -> (r: Option<Result<Output, EnvError>>)
    ensures
        r is Some <==> run_defined(input),
        r matches Some(x) ==> run_result(input, x),
{
    let parsed = match parse_pcommands(input.commands.as_str()) {
        Ok(p) => p,
        Err(e) => {
            return Some(Err(EnvError::invalid_input_for_program("failed to parse commands", e)));
        },
    };
    let map = match marking_trace(&parsed, input.steps) {
        Some(m) => m,
        None => {
            return None;
        },
    };
    let stepped = match try_steps(&parsed, input.steps) {
        Some(s) => s,
        None => {
            return None;
        },
    };
    match dot(stepped) {
        Ok(d) => Some(Ok(Output { dot: d, map })),
        Err(e) => Some(Err(EnvError::invalid_input_for_program("failed to generate DOT", e))),
    }
}

/// The reference run: parses the commands, simulates the steps, and
/// renders the net after them.
pub fn run(input: &Input) -> (r: Result<Output, EnvError>)
    requires
        run_defined(input),
    ensures
        run_result(input, r),
{
    match try_run(input) {
        Some(r) => r,
        None => vstd::pervasive::unreached(),
    }
}

/// Whether two lists of counts give every place the same count.
pub open spec fn same_marking(a: Assoc<usize>, b: Assoc<usize>) -> bool {
    forall|k: Seq<char>| #[trigger] assoc_get(a, k) == assoc_get(b, k)
}

fn same_counts(a: &Vec<(String, usize)>, b: &Vec<(String, usize)>) -> (r: bool)
    ensures
        r == same_marking(counts_view(a@), counts_view(b@)),
{
    let ghost av = counts_view(a@);
    let ghost bv = counts_view(b@);
    let mut i: usize = 0;
    while i < a.len()
        invariant
            i <= a.len(),
            av == counts_view(a@),
            bv == counts_view(b@),
            forall|j: int| 0 <= j < i ==> assoc_get(av, #[trigger] av[j].0) == assoc_get(bv, av[j].0),
        decreases a.len() - i,
    {
        let x = get_count(a, &a[i].0);
        let y = get_count(b, &a[i].0);
        let same = match (x, y) {
            (Some(p), Some(q)) => p == q,
            (None, None) => true,
            _ => false,
        };
        if !same {
            assert(assoc_get(av, a@[i as int].0@) != assoc_get(bv, a@[i as int].0@));
            return false;
        }
        assert(av[i as int].0 == a@[i as int].0@);
        i = i + 1;
    }
    let mut i: usize = 0;
    while i < b.len()
        invariant
            i <= b.len(),
            av == counts_view(a@),
            bv == counts_view(b@),
            forall|j: int| 0 <= j < a.len() ==> assoc_get(av, #[trigger] av[j].0) == assoc_get(bv, av[j].0),
            forall|j: int| 0 <= j < i ==> assoc_get(av, #[trigger] bv[j].0) == assoc_get(bv, bv[j].0),
        decreases b.len() - i,
    {
        let x = get_count(a, &b[i].0);
        let y = get_count(b, &b[i].0);
        let same = match (x, y) {
            (Some(p), Some(q)) => p == q,
            (None, None) => true,
            _ => false,
        };
        if !same {
            assert(assoc_get(av, b@[i as int].0@) != assoc_get(bv, b@[i as int].0@));
            return false;
        }
        assert(bv[i as int].0 == b@[i as int].0@);
        i = i + 1;
    }
    assert forall|k: Seq<char>| #[trigger] assoc_get(av, k) == assoc_get(bv, k) by {
        lemma_key_index(av, k, 0);
        lemma_key_index(bv, k, 0);
        if key_index(av, k, 0) >= 0 {
            let j = key_index(av, k, 0);
            assert(av[j].0 == k);
        } else if key_index(bv, k, 0) >= 0 {
            let j = key_index(bv, k, 0);
            assert(bv[j].0 == k);
        }
    }
    true
}

/// Whether the reference run on `input` gives an output.
pub open spec fn run_succeeds(input: &Input) -> bool {
    &&& run_defined(input)
    &&& parse_spec(input.commands@) matches Ok(cs)
    &&& dot_spec(steps_spec(cs, input.steps as nat)->0) is Ok
}

/// The verdict on `output`: its first counts agree, place by place, with
/// the counts before the first step.
pub open spec fn verdict(input: &Input, output: &Output) -> bool {
    same_marking(
        marking_after(parse_spec(input.commands@)->Ok_0, 0)->0,
        counts_view(output.map@[0]@),
    )
}

/// The check of `output`, or `None` where the reference run gives no
/// output or `output` has no counts.
pub fn try_validate(input: &Input, output: &Output) -> (r: Option<Result<ValidationResult, EnvError>>)
    ensures
        r is Some <==> (run_succeeds(input) && output.map.len() > 0),
        r matches Some(x) ==> (x matches Ok(v) && (v is Correct <==> verdict(input, output))),
        r matches Some(Ok(ValidationResult::Mismatch { reason })) ==> reason@
            == "Initial state mismatch"@,
{
    if output.map.len() == 0 {
        return None;
    }
    let reference = match try_run(input) {
        Some(Ok(o)) => o,
        _ => {
            return None;
        },
    };
    proof {
        let cs = parse_spec(input.commands@)->Ok_0;
        assert(trace_entry(reference.map@, cs, 0));
    }
    if same_counts(&reference.map[0], &output.map[0]) {
        Some(Ok(ValidationResult::Correct))
    } else {
        Some(
            Ok(ValidationResult::Mismatch { reason: String::from_str("Initial state mismatch") }),
        )
    }
}

/// Checks `output` against the reference run: correct exactly when its
/// first counts agree with the counts before the first step.
pub fn validate(input: &Input, output: &Output) -> (r: Result<ValidationResult, EnvError>)
    requires
        run_succeeds(input),
        output.map.len() > 0,
    ensures
        r matches Ok(v) && (v is Correct <==> verdict(input, output)),
        r matches Ok(ValidationResult::Mismatch { reason }) ==> reason@ == "Initial state mismatch"@,
{
    match try_validate(input, output) {
        Some(r) => r,
        None => vstd::pervasive::unreached(),
    }
}


/// The name of the `k`-th place of a generated net: `a`, `b`, ...
pub open spec fn letter_name(k: int) -> Seq<char> {
    seq![(97 + k) as char]
}

/// The places of a generated net with `n` places.
pub open spec fn place_names(n: nat) -> Seq<Seq<char>> {
    Seq::new(n, |k: int| letter_name(k))
}

/// The names a generated transition may have, in the order they are used.
pub open spec fn transition_names() -> Seq<Seq<char>> {
    seq!["process"@, "complete"@, "check"@, "send"@, "receive"@]
}

/// A weight of a generated arc: `1`, `2` or `3`.
pub open spec fn is_weight(a: Seq<char>) -> bool {
    a == decimal(1) || a == decimal(2) || a == decimal(3)
}

/// An arc from one of the `np` places into one of the `nt` transitions.
pub open spec fn arc_in(c: Cmd, np: nat, nt: nat) -> bool {
    match c {
        Cmd::Connection { from, to, amount, to_transition, from_transition } => to_transition
            && !from_transition && place_names(np).contains(from) && transition_names().take(
            nt as int,
        ).contains(to) && is_weight(amount),
        _ => false,
    }
}

/// An arc from one of the `nt` transitions to one of the `np` places.
pub open spec fn arc_out(c: Cmd, np: nat, nt: nat) -> bool {
    match c {
        Cmd::Connection { from, to, amount, to_transition, from_transition } => !to_transition
            && from_transition && transition_names().take(nt as int).contains(from)
            && place_names(np).contains(to) && is_weight(amount),
        _ => false,
    }
}

/// The source of an arc.
pub open spec fn arc_source(c: Cmd) -> Seq<char> {
    match c {
        Cmd::Connection { from, .. } => from,
        Cmd::Token(p, _) => p,
    }
}

/// The target of an arc.
pub open spec fn arc_target(c: Cmd) -> Seq<char> {
    match c {
        Cmd::Connection { to, .. } => to,
        Cmd::Token(p, _) => p,
    }
}

/// The place an arc touches: the source of an arc into a transition, the
/// target of one out of a transition.
pub open spec fn arc_place(c: Cmd) -> Seq<char> {
    match c {
        Cmd::Connection { from, to, to_transition, .. } => if to_transition {
            from
        } else {
            to
        },
        Cmd::Token(p, _) => p,
    }
}

/// Whether some arc of `arcs` touches `place`.
pub open spec fn uses_place(arcs: Seq<Cmd>, place: Seq<char>) -> bool {
    exists|j: int| 0 <= j < arcs.len() && arc_place(#[trigger] arcs[j]) == place
}

/// The arcs of a generated net: for each transition in turn an arc into
/// it, then for each an arc out of it, then `ne` arcs of either kind.
pub open spec fn arcs_generated(arcs: Seq<Cmd>, np: nat, nt: nat, ne: nat) -> bool {
    &&& arcs.len() == 2 * nt + ne
    &&& forall|k: int|
        0 <= k < nt ==> arc_in(#[trigger] arcs[k], np, nt) && arc_target(arcs[k])
            == transition_names()[k]
    &&& forall|k: int|
        nt <= k < 2 * nt ==> arc_out(#[trigger] arcs[k], np, nt) && arc_source(arcs[k])
            == transition_names()[k - nt]
    &&& forall|k: int|
        2 * nt <= k < 2 * nt + ne ==> arc_in(#[trigger] arcs[k], np, nt) || arc_out(
            arcs[k],
            np,
            nt,
        )
}

/// The token counts of a generated net: one to three, each of one to five
/// tokens, on distinct places that the arcs touch.
pub open spec fn tokens_generated(tokens: Seq<Cmd>, arcs: Seq<Cmd>) -> bool {
    &&& 1 <= tokens.len() <= 3
    &&& forall|k: int|
        0 <= k < tokens.len() ==> (#[trigger] tokens[k] matches Cmd::Token(p, n) && 1 <= n <= 5
            && uses_place(arcs, p))
    &&& forall|k1: int, k2: int|
        0 <= k1 < tokens.len() && 0 <= k2 < tokens.len() && k1 != k2 ==> arc_place(
            #[trigger] tokens[k1],
        ) != arc_place(#[trigger] tokens[k2])
}

/// A generated net: three to six places, two to four transitions, at most
/// four extra arcs, then the token counts.
pub open spec fn generated_net(cs: Seq<Cmd>, np: nat, nt: nat, ne: nat) -> bool {
    &&& 3 <= np <= 6
    &&& 2 <= nt <= 4
    &&& ne <= 4
    &&& cs.len() >= 2 * nt + ne
    &&& arcs_generated(cs.take((2 * nt + ne) as int), np, nt, ne)
    &&& tokens_generated(cs.skip((2 * nt + ne) as int), cs.take((2 * nt + ne) as int))
}

fn letter(k: usize) -> (r: String)
    requires
        k < 26,
    ensures
        r@ == letter_name(k as int),
{
    let mut s = String::new();
    let c: char = ((97 + k) as u8) as char;
    s.push(c);
    s
}

fn transition_name(k: usize) -> (r: &'static str)
    requires
        k < 5,
    ensures
        r@ == transition_names()[k as int],
{
    if k == 0 {
        "process"
    } else if k == 1 {
        "complete"
    } else if k == 2 {
        "check"
    } else if k == 3 {
        "send"
    } else {
        "receive"
    }
}

/// The drawn values of a generated net's arcs.
pub struct ArcDraws {
    /// How many places: they are named `a`, `b`, ...
    pub places: usize,
    /// How many transitions: they are named as [`transition_names`] lists.
    pub transitions: usize,
    /// For each transition, the place of the arc into it and its weight.
    pub into: Vec<(usize, usize)>,
    /// For each transition, the place of the arc out of it and its weight.
    pub out_of: Vec<(usize, usize)>,
    /// The further arcs: whether it goes into the transition, the place,
    /// the transition, and the weight.
    pub extra: Vec<(bool, usize, usize, usize)>,
}

/// The arc from the `p`-th place into the `t`-th transition, of weight `w`.
pub open spec fn in_arc_cmd(p: int, t: int, w: nat) -> Cmd {
    Cmd::Connection {
        from: letter_name(p),
        to: transition_names()[t],
        amount: decimal(w),
        to_transition: true,
        from_transition: false,
    }
}

/// The arc from the `t`-th transition to the `p`-th place, of weight `w`.
pub open spec fn out_arc_cmd(t: int, p: int, w: nat) -> Cmd {
    Cmd::Connection {
        from: transition_names()[t],
        to: letter_name(p),
        amount: decimal(w),
        to_transition: false,
        from_transition: true,
    }
}

/// One further arc.
pub open spec fn extra_cmd(e: (bool, usize, usize, usize)) -> Cmd {
    if e.0 {
        in_arc_cmd(e.1 as int, e.2 as int, e.3 as nat)
    } else {
        out_arc_cmd(e.2 as int, e.1 as int, e.3 as nat)
    }
}

/// The arcs that the draws `d` describe: an arc into each transition in
/// turn, an arc out of each, then the further arcs.
pub open spec fn arcs_of(d: ArcDraws) -> Seq<Cmd> {
    Seq::new(
        d.transitions as nat,
        |k: int| in_arc_cmd(d.into@[k].0 as int, k, d.into@[k].1 as nat),
    ) + Seq::new(
        d.transitions as nat,
        |k: int| out_arc_cmd(k, d.out_of@[k].0 as int, d.out_of@[k].1 as nat),
    ) + d.extra@.map_values(|e: (bool, usize, usize, usize)| extra_cmd(e))
}

/// Whether the draws name only places and transitions that exist.
pub open spec fn arc_draws_ok(d: ArcDraws) -> bool {
    &&& d.places <= 26
    &&& d.transitions <= 5
    &&& d.into.len() == d.transitions
    &&& d.out_of.len() == d.transitions
    &&& forall|k: int| 0 <= k < d.into.len() ==> (#[trigger] d.into@[k]).0 < d.places
    &&& forall|k: int| 0 <= k < d.out_of.len() ==> (#[trigger] d.out_of@[k]).0 < d.places
    &&& forall|k: int|
        0 <= k < d.extra.len() ==> (#[trigger] d.extra@[k]).1 < d.places && d.extra@[k].2
            < d.transitions
}

/// The places that the arcs `arcs[..k]` touch, each once, in the order in
/// which they are first touched.
pub open spec fn used_upto(arcs: Seq<Cmd>, k: int) -> Seq<Seq<char>>
    decreases k,
{
    if k <= 0 {
        Seq::empty()
    } else {
        let u = used_upto(arcs, k - 1);
        if u.contains(arc_place(arcs[k - 1])) {
            u
        } else {
            u.push(arc_place(arcs[k - 1]))
        }
    }
}

/// The token counts `counts`, the `j`-th on the place `used[order[j]]`.
pub open spec fn token_cmds(used: Seq<Seq<char>>, order: Seq<usize>, counts: Seq<usize>) -> Seq<
    Cmd,
> {
    Seq::new(counts.len(), |j: int| Cmd::Token(used[order[j] as int], counts[j]))
}

proof fn lemma_used_upto(arcs: Seq<Cmd>, k: int)
    requires
        0 <= k <= arcs.len(),
    ensures
        used_upto(arcs, k).no_duplicates(),
        forall|i: int|
            0 <= i < used_upto(arcs, k).len() ==> uses_place(arcs, #[trigger] used_upto(arcs, k)[i]),
        k >= 1 ==> used_upto(arcs, k).len() >= 1,
    decreases k,
{
    if k > 0 {
        lemma_used_upto(arcs, k - 1);
        let u = used_upto(arcs, k - 1);
        let x = arc_place(arcs[k - 1]);
        assert(uses_place(arcs, x));
        if !u.contains(x) {
            let v = u.push(x);
            assert forall|i: int| 0 <= i < v.len() implies uses_place(arcs, #[trigger] v[i]) by {
                if i < u.len() {
                    assert(v[i] == u[i]);
                }
            }
            assert forall|i: int, j: int| 0 <= i < v.len() && 0 <= j < v.len() && i != j implies v[i]
                != v[j] by {
                if i < u.len() && j < u.len() {
                    assert(v[i] == u[i] && v[j] == u[j]);
                } else if i < u.len() {
                    assert(v[i] == u[i]);
                } else if j < u.len() {
                    assert(v[j] == u[j]);
                }
            }
        } else {
            let i = choose|i: int| 0 <= i < u.len() && u[i] == x;
            assert(u[i] == x);
        }
    }
}

fn connection(from: String, to: String, weight: usize, into: bool) -> (r: PCommand)
    ensures
        r@ == (Cmd::Connection {
            from: from@,
            to: to@,
            amount: decimal(weight as nat),
            to_transition: into,
            from_transition: !into,
        }),
{
    PCommand::Connection {
        from,
        to,
        amount: decimal_string(weight),
        to_transition: into,
        from_transition: !into,
    }
}

fn in_arc(p: usize, t: usize, w: usize) -> (r: PCommand)
    requires
        p < 26,
        t < 5,
    ensures
        r@ == in_arc_cmd(p as int, t as int, w as nat),
{
    connection(letter(p), String::from_str(transition_name(t)), w, true)
}

fn out_arc(t: usize, p: usize, w: usize) -> (r: PCommand)
    requires
        p < 26,
        t < 5,
    ensures
        r@ == out_arc_cmd(t as int, p as int, w as nat),
{
    connection(String::from_str(transition_name(t)), letter(p), w, false)
}

/// The place that a command touches.
fn place_of(c: &PCommand) -> (r: String)
    ensures
        r@ == arc_place(c@),
{
    match c {
        PCommand::Connection { from, to, to_transition, .. } => if *to_transition {
            from.clone()
        } else {
            to.clone()
        },
        PCommand::Token(p, _) => p.clone(),
    }
}

/// The arcs that the draws describe, and the places they touch in the
/// order in which they are first touched.
pub fn net_arcs(d: &ArcDraws) -> (r: (Vec<PCommand>, Vec<String>))
    requires
        arc_draws_ok(*d),
    ensures
        cmds_view(r.0@) == arcs_of(*d),
        names_view(r.1@) == used_upto(arcs_of(*d), arcs_of(*d).len() as int),
{
    let ghost arcs = arcs_of(*d);
    let nt = d.transitions;
    let mut cmds: Vec<PCommand> = Vec::new();
    let mut k: usize = 0;
    while k < nt
        invariant
            arc_draws_ok(*d),
            arcs == arcs_of(*d),
            nt == d.transitions,
            k <= nt,
            cmds_view(cmds@) == arcs.take(k as int),
        decreases nt - k,
    {
        let c = in_arc(d.into[k].0, k, d.into[k].1);
        let ghost before = cmds_view(cmds@);
        cmds.push(c);
        assert(cmds_view(cmds@) =~= before.push(c@));
        assert(arcs.take(k + 1) =~= arcs.take(k as int).push(arcs[k as int]));
        k = k + 1;
    }
    let mut k: usize = 0;
    while k < nt
        invariant
            arc_draws_ok(*d),
            arcs == arcs_of(*d),
            nt == d.transitions,
            k <= nt,
            cmds_view(cmds@) == arcs.take(nt + k),
        decreases nt - k,
    {
        let c = out_arc(k, d.out_of[k].0, d.out_of[k].1);
        let ghost before = cmds_view(cmds@);
        cmds.push(c);
        assert(cmds_view(cmds@) =~= before.push(c@));
        assert(arcs[nt + k] == c@);
        assert(arcs.take(nt + k + 1) =~= arcs.take(nt + k).push(arcs[nt + k]));
        k = k + 1;
    }
    let mut e: usize = 0;
    while e < d.extra.len()
        invariant
            arc_draws_ok(*d),
            arcs == arcs_of(*d),
            nt == d.transitions,
            e <= d.extra.len(),
            arcs.len() == 2 * nt + d.extra.len(),
            cmds_view(cmds@) == arcs.take(2 * nt + e),
        decreases d.extra.len() - e,
    {
        let x = d.extra[e];
        let c = if x.0 {
            in_arc(x.1, x.2, x.3)
        } else {
            out_arc(x.2, x.1, x.3)
        };
        let ghost before = cmds_view(cmds@);
        cmds.push(c);
        assert(cmds_view(cmds@) =~= before.push(c@));
        assert(arcs[2 * nt + e] == c@);
        assert(arcs.take(2 * nt + e + 1) =~= arcs.take(2 * nt + e).push(arcs[2 * nt + e]));
        e = e + 1;
    }
    assert(arcs.take(arcs.len() as int) =~= arcs);
    let mut used: Vec<String> = Vec::new();
    let mut i: usize = 0;
    assert(names_view(used@) =~= Seq::<Seq<char>>::empty());
    while i < cmds.len()
        invariant
            i <= cmds.len(),
            cmds_view(cmds@) == arcs,
            names_view(used@) == used_upto(arcs, i as int),
        decreases cmds.len() - i,
    {
        let place = place_of(&cmds[i]);
        assert(place@ == arc_place(arcs[i as int]));
        if !contains_name(&used, &place) {
            let ghost before = names_view(used@);
            used.push(place);
            assert(names_view(used@) =~= before.push(arc_place(arcs[i as int])));
        }
        i = i + 1;
    }
    (cmds, used)
}

/// The input whose commands are the arcs `arcs` followed by the token
/// counts `counts`, the `j`-th on the place `used[order[j]]`; no steps.
pub fn build_input(
    arcs: Vec<PCommand>,
    used: &Vec<String>,
    order: &Vec<usize>,
    counts: &Vec<usize>,
) -> (r: Input)
    requires
        counts.len() <= order.len(),
        forall|j: int| 0 <= j < counts.len() ==> #[trigger] order@[j] < used.len(),
    ensures
        r.steps == 0,
        r.commands@ == commands_text(
            cmds_view(arcs@) + token_cmds(names_view(used@), order@, counts@),
        ),
{
    let ghost av = cmds_view(arcs@);
    let ghost toks = token_cmds(names_view(used@), order@, counts@);
    let mut commands = arcs;
    let mut t: usize = 0;
    while t < counts.len()
        invariant
            t <= counts.len() <= order.len(),
            forall|j: int| 0 <= j < counts.len() ==> #[trigger] order@[j] < used.len(),
            toks == token_cmds(names_view(used@), order@, counts@),
            cmds_view(commands@) == av + toks.take(t as int),
        decreases counts.len() - t,
    {
        let ghost before = cmds_view(commands@);
        assert(names_view(used@)[order@[t as int] as int] == used@[order@[t as int] as int]@);
        commands.push(PCommand::Token(used[order[t]].clone(), counts[t]));
        assert(cmds_view(commands@) =~= before.push(toks[t as int]));
        assert(toks.take(t + 1) =~= toks.take(t as int).push(toks[t as int]));
        t = t + 1;
    }
    assert(toks.take(counts.len() as int) =~= toks);
    let text = PCommands(commands).to_text();
    Input { commands: text, steps: 0 }
}

fn draw_weight(rng: &mut StdRng) -> (r: usize)
    ensures
        1 <= r <= 3,
{
    random_inclusive(rng, 1, 3)
}

proof fn lemma_weight(w: usize)
    requires
        1 <= w <= 3,
    ensures
        is_weight(decimal(w as nat)),
{
}

impl Input {
    /// A random input: a net of three to six places named `a`, `b`, ...,
    /// two to four transitions, an arc into and an arc out of each
    /// transition, up to four more arcs, and one to three token counts on
    /// places that arcs touch, written out as text; no steps. The drawn
    /// values go to [`net_arcs`] and [`build_input`].
    pub fn gn(rng: &mut StdRng) -> (r: Input)
        ensures
            r.steps == 0,
            exists|cs: Seq<Cmd>, np: nat, nt: nat, ne: nat|
                generated_net(cs, np, nt, ne) && r.commands@ == commands_text(cs),
    {
        let num_nodes = random_inclusive(rng, 3, 6);
        let num_transitions = random_inclusive(rng, 2, 4);
        let mut into: Vec<(usize, usize)> = Vec::new();
        let mut k: usize = 0;
        while k < num_transitions
            invariant
                k <= num_transitions <= 4,
                3 <= num_nodes <= 6,
                into.len() == k,
                forall|j: int|
                    0 <= j < k ==> (#[trigger] into@[j]).0 < num_nodes && 1 <= into@[j].1 <= 3,
            decreases num_transitions - k,
        {
            let p = random_inclusive(rng, 0, num_nodes - 1);
            let w = draw_weight(rng);
            into.push((p, w));
            k = k + 1;
        }
        let mut out_of: Vec<(usize, usize)> = Vec::new();
        let mut k: usize = 0;
        while k < num_transitions
            invariant
                k <= num_transitions <= 4,
                3 <= num_nodes <= 6,
                out_of.len() == k,
                forall|j: int|
                    0 <= j < k ==> (#[trigger] out_of@[j]).0 < num_nodes && 1 <= out_of@[j].1 <= 3,
            decreases num_transitions - k,
        {
            let p = random_inclusive(rng, 0, num_nodes - 1);
            let w = draw_weight(rng);
            out_of.push((p, w));
            k = k + 1;
        }
        let num_extra = random_inclusive(rng, 0, 4);
        let mut extra: Vec<(bool, usize, usize, usize)> = Vec::new();
        let mut e: usize = 0;
        while e < num_extra
            invariant
                e <= num_extra <= 4,
                2 <= num_transitions <= 4,
                3 <= num_nodes <= 6,
                extra.len() == e,
                forall|j: int|
                    0 <= j < e ==> (#[trigger] extra@[j]).1 < num_nodes && extra@[j].2
                        < num_transitions && 1 <= extra@[j].3 <= 3,
            decreases num_extra - e,
        {
            if random_inclusive(rng, 0, 1) == 0 {
                let p = random_inclusive(rng, 0, num_nodes - 1);
                let t = random_inclusive(rng, 0, num_transitions - 1);
                let w = draw_weight(rng);
                extra.push((true, p, t, w));
            } else {
                let t = random_inclusive(rng, 0, num_transitions - 1);
                let p = random_inclusive(rng, 0, num_nodes - 1);
                let w = draw_weight(rng);
                extra.push((false, p, t, w));
            }
            e = e + 1;
        }
        let d = ArcDraws { places: num_nodes, transitions: num_transitions, into, out_of, extra };
        let (arcs, used) = net_arcs(&d);
        let ghost av = arcs_of(d);
        proof {
            lemma_used_upto(av, av.len() as int);
        }
        let mut order: Vec<usize> = Vec::new();
        let mut i: usize = 0;
        while i < used.len()
            invariant
                i <= used.len(),
                order@ == Seq::new(i as nat, |j: int| j as usize),
            decreases used.len() - i,
        {
            order.push(i);
            assert(order@ =~= Seq::new((i + 1) as nat, |j: int| j as usize));
            i = i + 1;
        }
        let ghost ordered = order@;
        proof {
            ordered.lemma_multiset_has_no_duplicates();
        }
        shuffle(&mut order, rng);
        proof {
            broadcast use vstd::seq_lib::group_to_multiset_ensures;

            assert(order@.to_multiset().len() == order@.len());
            assert(ordered.to_multiset().len() == ordered.len());
            order@.lemma_multiset_has_no_duplicates_conv();
            assert forall|j: int| 0 <= j < order.len() implies #[trigger] order@[j] < used.len() by {
                assert(order@.contains(order@[j]));
                assert(ordered.to_multiset().count(order@[j]) > 0);
                assert(ordered.contains(order@[j]));
            }
        }
        let limit = if used.len() < 3 {
            used.len()
        } else {
            3
        };
        let num_tokens = random_inclusive(rng, 1, limit);
        let mut counts: Vec<usize> = Vec::new();
        let mut t: usize = 0;
        while t < num_tokens
            invariant
                t <= num_tokens,
                counts.len() == t,
                forall|j: int| 0 <= j < t ==> 1 <= #[trigger] counts@[j] <= 5,
            decreases num_tokens - t,
        {
            counts.push(random_inclusive(rng, 1, 5));
            t = t + 1;
        }
        let ghost used_v = names_view(used@);
        let r = build_input(arcs, &used, &order, &counts);
        proof {
            let np = num_nodes as nat;
            let nt = num_transitions as nat;
            let ne = num_extra as nat;
            let toks = token_cmds(used_v, order@, counts@);
            let cs = av + toks;
            let base = (2 * nt + ne) as int;
            assert(cs.take(base) =~= av);
            assert(cs.skip(base) =~= toks);
            assert forall|k: int| 0 <= k < nt implies arc_in(#[trigger] av[k], np, nt) && arc_target(
                av[k],
            ) == transition_names()[k] by {
                let p = d.into@[k].0 as int;
                assert(place_names(np)[p] == letter_name(p));
                assert(transition_names().take(nt as int)[k] == transition_names()[k]);
                lemma_weight(d.into@[k].1);
            }
            assert forall|k: int| nt <= k < 2 * nt implies arc_out(#[trigger] av[k], np, nt)
                && arc_source(av[k]) == transition_names()[k - nt] by {
                let p = d.out_of@[k - nt].0 as int;
                assert(place_names(np)[p] == letter_name(p));
                assert(transition_names().take(nt as int)[k - nt] == transition_names()[k - nt]);
                lemma_weight(d.out_of@[k - nt].1);
            }
            assert forall|k: int| 2 * nt <= k < 2 * nt + ne implies arc_in(#[trigger] av[k], np, nt)
                || arc_out(av[k], np, nt) by {
                let x = d.extra@[k - 2 * nt];
                assert(av[k] == extra_cmd(x));
                assert(place_names(np)[x.1 as int] == letter_name(x.1 as int));
                assert(transition_names().take(nt as int)[x.2 as int] == transition_names()[x.2 as int]);
                lemma_weight(x.3);
            }
            assert(arcs_generated(av, np, nt, ne));
            assert forall|k: int| 0 <= k < toks.len() implies (#[trigger] toks[k] matches Cmd::Token(
                p,
                n,
            ) && 1 <= n <= 5 && uses_place(av, p)) by {
                let idx = order@[k] as int;
                assert(0 <= idx < used_v.len());
                assert(uses_place(av, used_v[idx]));
            }
            assert forall|k1: int, k2: int|
                0 <= k1 < toks.len() && 0 <= k2 < toks.len() && k1 != k2 implies arc_place(
                #[trigger] toks[k1],
            ) != arc_place(#[trigger] toks[k2]) by {
                assert(order@[k1] != order@[k2]);
            }
            assert(tokens_generated(toks, av));
            assert(generated_net(cs, np, nt, ne));
        }
        r
    }
}

} // verus!
