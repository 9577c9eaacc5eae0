//! Properties that hold across the library's functions, for all inputs.
use vstd::prelude::*;

use crate::command::Cmd;
use crate::dot_generator::{dot_from, dot_spec};
use crate::parser::{
    check_syntax_spec, command_spec, connection_spec, first_non_alnum_from, parse_pieces,
    parse_spec, token_spec,
};
use crate::text::{alphanumeric, has_arrow, has_char, lemma_trim_shape, trim};
use crate::petrinet::{run_result, run_succeeds, verdict as net_verdict, Input, Output};
use crate::playground::{
    capitalize_spec, verdict as text_verdict, Input as TextInput, Output as TextOutput,
};
use crate::steps::{
    add_missing_tokens, assoc_get, consume, count_of, input_table, inputs_available, produce,
    run_steps, select_fired, step, assoc_set, drop_empty_tokens, has_token_for, initial_tokens,
    is_empty_token, is_trace, key_index, lemma_key_index, render, steps_spec, trace_entry,
    update_tokens, Assoc,
};

verus! {

/// The reference output of the Petri-net environment passes its own check.
pub proof fn law_reference_output_is_correct(input: &Input, output: Output)
    requires
        run_succeeds(input),
        run_result(input, Ok(output)),
        output.map.len() > 0,
    ensures
        net_verdict(input, &output),
{
    let cs = crate::parser::parse_spec(input.commands@)->Ok_0;
    assert(is_trace(output.map@, cs, input.steps as nat));
    assert(trace_entry(output.map@, cs, 0));
}

/// The reference output of the text playground passes its own check.
pub proof fn law_reference_text_is_correct(input: &TextInput, output: &TextOutput)
    requires
        output.result@ == capitalize_spec(input.text@),
    ensures
        text_verdict(input, output),
{
}

proof fn lemma_dot_from_shape(
    cs: Seq<Cmd>,
    i: int,
    lines: Seq<char>,
    places: Seq<Seq<char>>,
    transitions: Seq<Seq<char>>,
)
    ensures
        dot_from(cs, i, lines, places, transitions) matches Ok(s) ==> exists|body: Seq<char>|
            s == "digraph G {\n"@ + body + "}"@,
    decreases cs.len() - i,
{
    if i < 0 || i >= cs.len() {
        assert(("digraph G {\n"@ + lines + "}"@) == "digraph G {\n"@ + lines + "}"@);
    } else {
        match cs[i] {
            Cmd::Connection { from, to, amount, to_transition, from_transition } => {
                if to_transition && !from_transition {
                    lemma_dot_from_shape(
                        cs,
                        i + 1,
                        lines + crate::dot_generator::arc_into_line(from, to, amount),
                        places.push(from),
                        transitions.push(to),
                    );
                } else if !to_transition && from_transition {
                    lemma_dot_from_shape(
                        cs,
                        i + 1,
                        lines + crate::dot_generator::arc_out_line(from, to, amount),
                        places,
                        transitions,
                    );
                }
            },
            Cmd::Token(place, n) => {
                lemma_dot_from_shape(
                    cs,
                    i + 1,
                    crate::text::replace_all(
                        lines,
                        crate::dot_generator::label_of(place),
                        crate::dot_generator::label_of(place + crate::text::stars(n as nat)),
                    ),
                    places,
                    transitions,
                );
            },
        }
    }
}

/// Every graph that `dot` renders is a digraph named `G`: `digraph G {`, a
/// line break, the body, and a closing brace.
pub proof fn law_dot_is_digraph(cs: Seq<Cmd>)
    ensures
        dot_spec(cs) matches Ok(s) ==> exists|body: Seq<char>| s == "digraph G {\n"@ + body + "}"@,
{
    lemma_dot_from_shape(cs, 0, Seq::empty(), Seq::empty(), Seq::empty());
}

/// Whether no command of `cs` is a token count of zero.
pub open spec fn no_empty_tokens(cs: Seq<Cmd>) -> bool {
    forall|k: int| 0 <= k < cs.len() ==> !is_empty_token(#[trigger] cs[k])
}

proof fn lemma_drop_empty(cs: Seq<Cmd>, i: int, acc: Seq<Cmd>)
    requires
        no_empty_tokens(acc),
    ensures
        no_empty_tokens(drop_empty_tokens(cs, i, acc)),
    decreases cs.len() - i,
{
    if 0 <= i < cs.len() {
        if is_empty_token(cs[i]) {
            lemma_drop_empty(cs, i + 1, acc);
        } else {
            assert(no_empty_tokens(acc.push(cs[i])));
            lemma_drop_empty(cs, i + 1, acc.push(cs[i]));
        }
    }
}

/// After any number of steps, no token command with zero tokens is left.
pub proof fn law_steps_drop_empty_tokens(cs: Seq<Cmd>, n: nat)
    ensures
        steps_spec(cs, n) matches Some(out) ==> no_empty_tokens(out),
{
    match crate::steps::marking_after(cs, n) {
        Some(t) => {
            let updated = update_tokens(cs, t, 0, Seq::empty());
            let all = add_missing_tokens(t, updated, 0, updated);
            lemma_drop_empty(all, 0, Seq::empty());
        },
        None => {},
    }
}


/// The connection commands of `cs`, in order.
pub open spec fn connections_of(cs: Seq<Cmd>) -> Seq<Cmd>
    decreases cs.len(),
{
    if cs.len() == 0 {
        Seq::empty()
    } else if cs.last() is Connection {
        connections_of(cs.drop_last()).push(cs.last())
    } else {
        connections_of(cs.drop_last())
    }
}

pub(crate) proof fn lemma_connections_push(a: Seq<Cmd>, c: Cmd)
    ensures
        connections_of(a.push(c)) == (if c is Connection {
            connections_of(a).push(c)
        } else {
            connections_of(a)
        }),
{
    assert(a.push(c).drop_last() == a);
    assert(a.push(c).last() == c);
}

pub(crate) proof fn lemma_connections_concat(a: Seq<Cmd>, b: Seq<Cmd>)
    ensures
        connections_of(a + b) == connections_of(a) + connections_of(b),
    decreases b.len(),
{
    if b.len() == 0 {
        assert(a + b == a);
        assert(connections_of(a) + Seq::<Cmd>::empty() == connections_of(a));
    } else {
        lemma_connections_concat(a, b.drop_last());
        assert((a + b).drop_last() == a + b.drop_last());
        assert((a + b).last() == b.last());
        if b.last() is Connection {
            assert(connections_of(a) + connections_of(b.drop_last()).push(b.last()) == (
            connections_of(a) + connections_of(b.drop_last())).push(b.last()));
        }
    }
}

pub(crate) proof fn lemma_connections_front(cs: Seq<Cmd>, i: int)
    requires
        0 <= i < cs.len(),
    ensures
        connections_of(cs.subrange(i, cs.len() as int)) == connections_of(seq![cs[i]])
            + connections_of(cs.subrange(i + 1, cs.len() as int)),
{
    assert(cs.subrange(i, cs.len() as int) == seq![cs[i]] + cs.subrange(i + 1, cs.len() as int));
    lemma_connections_concat(seq![cs[i]], cs.subrange(i + 1, cs.len() as int));
}

pub(crate) proof fn lemma_connections_single(c: Cmd)
    ensures
        connections_of(seq![c]) == (if c is Connection {
            seq![c]
        } else {
            Seq::<Cmd>::empty()
        }),
{
    assert(Seq::<Cmd>::empty().push(c) == seq![c]);
    lemma_connections_push(Seq::<Cmd>::empty(), c);
    assert(connections_of(Seq::<Cmd>::empty()) == Seq::<Cmd>::empty());
}

proof fn lemma_update_connections(cs: Seq<Cmd>, t: Assoc<usize>, i: int, acc: Seq<Cmd>)
    requires
        0 <= i <= cs.len(),
    ensures
        connections_of(update_tokens(cs, t, i, acc)) == connections_of(acc) + connections_of(
            cs.subrange(i, cs.len() as int),
        ),
    decreases cs.len() - i,
{
    if i == cs.len() {
        assert(cs.subrange(i, cs.len() as int) == Seq::<Cmd>::empty());
        assert(connections_of(acc) + Seq::<Cmd>::empty() == connections_of(acc));
    } else {
        lemma_connections_front(cs, i);
        lemma_connections_single(cs[i]);
        match cs[i] {
            Cmd::Token(place, _) => {
                match crate::steps::assoc_get(t, place) {
                    Some(v) => {
                        lemma_update_connections(cs, t, i + 1, acc.push(Cmd::Token(place, v)));
                        lemma_connections_push(acc, Cmd::Token(place, v));
                    },
                    None => {
                        lemma_update_connections(cs, t, i + 1, acc);
                    },
                }
                assert(Seq::<Cmd>::empty() + connections_of(cs.subrange(i + 1, cs.len() as int))
                    == connections_of(cs.subrange(i + 1, cs.len() as int)));
            },
            _ => {
                lemma_update_connections(cs, t, i + 1, acc.push(cs[i]));
                lemma_connections_push(acc, cs[i]);
                assert(connections_of(acc.push(cs[i])) == connections_of(acc).push(cs[i]));
                assert(connections_of(acc).push(cs[i]) + connections_of(
                    cs.subrange(i + 1, cs.len() as int),
                ) == connections_of(acc) + (seq![cs[i]] + connections_of(
                    cs.subrange(i + 1, cs.len() as int),
                )));
            },
        }
    }
}

proof fn lemma_missing_connections(t: Assoc<usize>, existing: Seq<Cmd>, j: int, acc: Seq<Cmd>)
    ensures
        connections_of(add_missing_tokens(t, existing, j, acc)) == connections_of(acc),
    decreases t.len() - j,
{
    if 0 <= j < t.len() {
        if crate::steps::has_token_for(existing, t[j].0) {
            lemma_missing_connections(t, existing, j + 1, acc);
        } else {
            lemma_missing_connections(t, existing, j + 1, acc.push(Cmd::Token(t[j].0, t[j].1)));
            lemma_connections_push(acc, Cmd::Token(t[j].0, t[j].1));
        }
    }
}

proof fn lemma_drop_connections(cs: Seq<Cmd>, i: int, acc: Seq<Cmd>)
    requires
        0 <= i <= cs.len(),
    ensures
        connections_of(drop_empty_tokens(cs, i, acc)) == connections_of(acc) + connections_of(
            cs.subrange(i, cs.len() as int),
        ),
    decreases cs.len() - i,
{
    if i == cs.len() {
        assert(cs.subrange(i, cs.len() as int) == Seq::<Cmd>::empty());
        assert(connections_of(acc) + Seq::<Cmd>::empty() == connections_of(acc));
    } else {
        lemma_connections_front(cs, i);
        lemma_connections_single(cs[i]);
        if is_empty_token(cs[i]) {
            lemma_drop_connections(cs, i + 1, acc);
            assert(Seq::<Cmd>::empty() + connections_of(cs.subrange(i + 1, cs.len() as int))
                == connections_of(cs.subrange(i + 1, cs.len() as int)));
        } else {
            lemma_drop_connections(cs, i + 1, acc.push(cs[i]));
            lemma_connections_push(acc, cs[i]);
            if cs[i] is Connection {
                assert(connections_of(acc.push(cs[i])) == connections_of(acc).push(cs[i]));
                assert(connections_of(acc).push(cs[i]) + connections_of(
                    cs.subrange(i + 1, cs.len() as int),
                ) == connections_of(acc) + (seq![cs[i]] + connections_of(
                    cs.subrange(i + 1, cs.len() as int),
                )));
            } else {
                assert(Seq::<Cmd>::empty() + connections_of(cs.subrange(i + 1, cs.len() as int))
                    == connections_of(cs.subrange(i + 1, cs.len() as int)));
            }
        }
    }
}

/// Simulating steps changes token counts only: the connections of the
/// result are those of the input, in the same order.
pub proof fn law_steps_keep_connections(cs: Seq<Cmd>, n: nat)
    ensures
        steps_spec(cs, n) matches Some(out) ==> connections_of(out) == connections_of(cs),
{
    match crate::steps::marking_after(cs, n) {
        Some(t) => {
            let updated = update_tokens(cs, t, 0, Seq::empty());
            let all = add_missing_tokens(t, updated, 0, updated);
            assert(connections_of(Seq::<Cmd>::empty()) == Seq::<Cmd>::empty());
            lemma_update_connections(cs, t, 0, Seq::empty());
            assert(cs.subrange(0, cs.len() as int) == cs);
            assert(Seq::<Cmd>::empty() + connections_of(cs) == connections_of(cs));
            lemma_missing_connections(t, updated, 0, updated);
            lemma_drop_connections(all, 0, Seq::empty());
            assert(all.subrange(0, all.len() as int) == all);
            assert(Seq::<Cmd>::empty() + connections_of(all) == connections_of(all));
            assert(render(cs, t) == drop_empty_tokens(all, 0, Seq::empty()));
        },
        None => {},
    }
}


/// A command as the parser leaves it: an arc with exactly one end a
/// transition, whose names and weight have no whitespace at their ends and
/// whose target and weight are non-empty and hold neither `"->"` nor `'*'`;
/// or a count of at least one token on an alphanumeric place name.
pub open spec fn well_formed(c: Cmd) -> bool {
    match c {
        Cmd::Connection { from, to, amount, to_transition, from_transition } => {
            &&& to_transition != from_transition
            &&& trim(from) == from
            &&& trim(to) == to
            &&& trim(amount) == amount
            &&& to.len() > 0
            &&& amount.len() > 0
            &&& !has_arrow(to)
            &&& !has_arrow(amount)
            &&& !has_char(to, '*')
            &&& !has_char(amount, '*')
        },
        Cmd::Token(place, n) => n >= 1 && forall|j: int|
            0 <= j < place.len() ==> alphanumeric(#[trigger] place[j]),
    }
}

proof fn lemma_alnum_prefix(p: Seq<char>, k: int)
    requires
        0 <= k <= p.len(),
    ensures
        k <= first_non_alnum_from(p, k) <= p.len(),
        forall|j: int| k <= j < first_non_alnum_from(p, k) ==> alphanumeric(#[trigger] p[j]),
    decreases p.len() - k,
{
    if k < p.len() && alphanumeric(p[k]) {
        lemma_alnum_prefix(p, k + 1);
    }
}

proof fn lemma_check_syntax_ok(target: Seq<char>, amount: Seq<char>, p: Seq<char>)
    requires
        check_syntax_spec(target, amount, p) is Ok,
    ensures
        target.len() > 0,
        amount.len() > 0,
        !has_arrow(target),
        !has_arrow(amount),
        !has_char(target, '*'),
        !has_char(amount, '*'),
{
}

proof fn lemma_connection_well_formed(p: Seq<char>, i: int)
    ensures
        connection_spec(p, i) matches Ok(c) ==> well_formed(c),
{
    reveal(connection_spec);
    let a = p.take(i);
    let rest = p.skip(i + 2);
    if has_char(a, '[') {
        match crate::parser::extract_transition_spec(a, p) {
            Err(_) => {},
            Ok(from) => match crate::parser::separate_spec(rest, p) {
                Err(_) => {},
                Ok(parts) => match crate::parser::extract_amount_spec(parts.1, p) {
                    Err(_) => {},
                    Ok(amount) => {
                        if check_syntax_spec(trim(parts.0), amount, p) is Ok {
                            lemma_check_syntax_ok(trim(parts.0), amount, p);
                        }
                        lemma_trim_shape(trim(a).subrange(1, trim(a).len() - 1));
                        lemma_trim_shape(parts.0);
                        lemma_trim_shape(parts.1.drop_last());
                    },
                },
            },
        }
    } else {
        match crate::parser::separate_spec(rest, p) {
            Err(_) => {},
            Ok(parts) => match crate::parser::extract_transition_spec(parts.0, p) {
                Err(_) => {},
                Ok(target) => match crate::parser::extract_amount_spec(parts.1, p) {
                    Err(_) => {},
                    Ok(amount) => {
                        if check_syntax_spec(target, amount, p) is Ok {
                            lemma_check_syntax_ok(target, amount, p);
                        }
                        lemma_trim_shape(a);
                        lemma_trim_shape(trim(parts.0).subrange(1, trim(parts.0).len() - 1));
                        lemma_trim_shape(parts.1.drop_last());
                    },
                },
            },
        }
    }
}

proof fn lemma_command_well_formed(p: Seq<char>)
    requires
        p.len() <= usize::MAX,
    ensures
        command_spec(p) matches Ok(c) ==> well_formed(c),
{
    reveal(token_spec);
    match crate::text::first_arrow(p) {
        Some(i) => {
            lemma_connection_well_formed(p, i);
        },
        None => {
            lemma_alnum_prefix(p, 0);
            let i = first_non_alnum_from(p, 0);
            assert forall|j: int| 0 <= j < p.take(i).len() implies alphanumeric(
                #[trigger] p.take(i)[j],
            ) by {
                assert(p.take(i)[j] == p[j]);
            }
        },
    }
}

proof fn lemma_trim_len(s: Seq<char>)
    ensures
        trim(s).len() <= s.len(),
{
    lemma_trim_start_len(s);
    lemma_trim_end_len(crate::text::trim_start(s));
}

proof fn lemma_trim_start_len(s: Seq<char>)
    ensures
        crate::text::trim_start(s).len() <= s.len(),
    decreases s.len(),
{
    if s.len() > 0 && crate::text::is_white(s[0]) {
        lemma_trim_start_len(s.drop_first());
    }
}

proof fn lemma_trim_end_len(s: Seq<char>)
    ensures
        crate::text::trim_end(s).len() <= s.len(),
    decreases s.len(),
{
    if s.len() > 0 && crate::text::is_white(s.last()) {
        lemma_trim_end_len(s.drop_last());
    }
}

proof fn lemma_split_len(s: Seq<char>, sep: char)
    ensures
        forall|j: int|
            0 <= j < crate::parser::split_on(s, sep).len() ==> (#[trigger] crate::parser::split_on(
                s,
                sep,
            )[j]).len() <= s.len(),
        crate::parser::split_on(s, sep).len() >= 1,
    decreases s.len(),
{
    if s.len() > 0 {
        lemma_split_len(s.drop_last(), sep);
        let p = crate::parser::split_on(s.drop_last(), sep);
        let q = crate::parser::split_on(s, sep);
        assert forall|j: int| 0 <= j < q.len() implies (#[trigger] q[j]).len() <= s.len() by {
            if j < p.len() {
                assert(p[j].len() <= s.drop_last().len());
            }
        }
    }
}

proof fn lemma_pieces_well_formed(ps: Seq<Seq<char>>, k: int, acc: Seq<Cmd>)
    requires
        k >= 0,
        forall|j: int| 0 <= j < ps.len() ==> (#[trigger] ps[j]).len() <= usize::MAX,
        forall|j: int| 0 <= j < acc.len() ==> well_formed(#[trigger] acc[j]),
    ensures
        parse_pieces(ps, k, acc) matches Ok(cs) ==> forall|j: int|
            0 <= j < cs.len() ==> well_formed(#[trigger] cs[j]),
    decreases ps.len() - k,
{
    if 0 <= k < ps.len() {
        if trim(ps[k]).len() == 0 {
            lemma_pieces_well_formed(ps, k + 1, acc);
        } else {
            lemma_trim_len(ps[k]);
            lemma_command_well_formed(trim(ps[k]));
            match command_spec(trim(ps[k])) {
                Ok(c) => {
                    assert forall|j: int| 0 <= j < acc.push(c).len() implies well_formed(
                        #[trigger] acc.push(c)[j],
                    ) by {
                        if j < acc.len() {
                            assert(acc.push(c)[j] == acc[j]);
                        }
                    }
                    lemma_pieces_well_formed(ps, k + 1, acc.push(c));
                },
                Err(_) => {},
            }
        }
    }
}

/// Everything the parser accepts is well formed. (A text longer than
/// `usize::MAX` characters cannot be held in memory.)
pub proof fn law_parsed_commands_well_formed(src: Seq<char>)
    requires
        src.len() <= usize::MAX,
    ensures
        parse_spec(src) matches Ok(cs) ==> forall|j: int|
            0 <= j < cs.len() ==> well_formed(#[trigger] cs[j]),
{
    let t = trim(src);
    if t.len() > 0 && t.last() == ';' {
        lemma_trim_len(src);
        lemma_split_len(t, ';');
        lemma_pieces_well_formed(crate::parser::split_on(t, ';'), 0, Seq::empty());
    }
}


/// Simulating `a + b` steps is simulating `a` steps and then `b` more from
/// the counts reached.
pub proof fn law_steps_compose(
    tokens: Assoc<usize>,
    table: Assoc<Assoc<usize>>,
    cs: Seq<Cmd>,
    a: nat,
    b: nat,
)
    ensures
        crate::steps::run_steps(tokens, table, cs, a + b) == (match crate::steps::run_steps(
            tokens,
            table,
            cs,
            a,
        ) {
            None => None,
            Some(t) => crate::steps::run_steps(t, table, cs, b),
        }),
    decreases a,
{
    if a > 0 {
        match crate::steps::step(tokens, table, cs) {
            None => {},
            Some(t) => {
                law_steps_compose(t, table, cs, (a - 1) as nat, b);
                assert((a - 1) as nat + b == (a + b - 1) as nat);
            },
        }
    }
}


proof fn lemma_one_word(text: Seq<char>, i: int)
    requires
        0 <= i <= text.len(),
        forall|j: int| 0 <= j < text.len() ==> !crate::text::is_white(#[trigger] text[j]),
    ensures
        crate::playground::capitalize_from(text.push(' '), i, Seq::empty(), text.take(i), false)
            == text.push(' '),
    decreases text.len() - i,
{
    let s = text.push(' ');
    if i < text.len() {
        assert(s[i] == text[i]);
        assert(text.take(i).push(text[i]) =~= text.take(i + 1));
        lemma_one_word(text, i + 1);
    } else {
        assert(s[i] == ' ');
        assert(crate::text::is_white(' '));
        assert(text.take(i) == text);
        assert(crate::playground::flush_word(Seq::empty(), text, false) =~= text);
        let next = crate::playground::flush_word(Seq::empty(), text, false).push(' ');
        assert(crate::playground::capitalize_from(s, i + 1, next, Seq::empty(), text.len() != 0)
            == next);
    }
}

/// A text without whitespace is one word, the first, and stays as it is.
pub proof fn law_single_word_unchanged(text: Seq<char>)
    requires
        forall|j: int| 0 <= j < text.len() ==> !crate::text::is_white(#[trigger] text[j]),
    ensures
        capitalize_spec(text) == text,
{
    assert(text.take(0) =~= Seq::<char>::empty());
    lemma_one_word(text, 0);
    assert(text.push(' ').drop_last() =~= text);
}


proof fn lemma_key_index_same_keys<V>(m: Assoc<V>, m2: Assoc<V>, x: Seq<char>, i: int)
    requires
        m.len() == m2.len(),
        forall|j: int| 0 <= j < m.len() ==> (#[trigger] m[j]).0 == m2[j].0,
    ensures
        key_index(m2, x, i) == key_index(m, x, i),
    decreases m.len() - i,
{
    if 0 <= i < m.len() {
        assert(m[i].0 == m2[i].0);
        lemma_key_index_same_keys(m, m2, x, i + 1);
    }
}

proof fn lemma_key_index_push<V>(m: Assoc<V>, k: Seq<char>, v: V, x: Seq<char>, i: int)
    requires
        0 <= i,
    ensures
        key_index(m.push((k, v)), x, i) == (if key_index(m, x, i) >= 0 {
            key_index(m, x, i)
        } else if x == k && i <= m.len() {
            m.len() as int
        } else {
            -1
        }),
    decreases m.len() + 1 - i,
{
    let m2 = m.push((k, v));
    if i < m.len() {
        assert(m2[i] == m[i]);
        lemma_key_index_push(m, k, v, x, i + 1);
    } else if i == m.len() {
        assert(m2[i] == (k, v));
        assert(key_index(m2, x, i + 1) == -1);
    }
}

/// Reading back what was just written.
pub proof fn lemma_assoc_set_get<V>(m: Assoc<V>, k: Seq<char>, v: V, x: Seq<char>)
    ensures
        assoc_get(assoc_set(m, k, v), x) == (if x == k {
            Some(v)
        } else {
            assoc_get(m, x)
        }),
{
    lemma_key_index(m, k, 0);
    lemma_key_index(m, x, 0);
    let j = key_index(m, k, 0);
    if j >= 0 {
        let m2 = m.update(j, (k, v));
        lemma_key_index_same_keys(m, m2, x, 0);
        if key_index(m, x, 0) >= 0 && key_index(m, x, 0) != j {
            assert(m2[key_index(m, x, 0)] == m[key_index(m, x, 0)]);
        }
        if x == k {
            assert(key_index(m, x, 0) == j);
        }
    } else {
        lemma_key_index_push(m, k, v, x, 0);
        if x == k {
            assert(key_index(m, x, 0) < 0);
        }
    }
}

/// Whether `cs[i]` counts tokens of `place`.
pub open spec fn is_token_for(cs: Seq<Cmd>, i: int, place: Seq<char>) -> bool {
    cs[i] matches Cmd::Token(p, _) && p == place
}

/// No place has two token commands.
pub open spec fn token_places_distinct(cs: Seq<Cmd>) -> bool {
    forall|i: int, j: int|
        0 <= i < cs.len() && 0 <= j < cs.len() && i != j && (#[trigger] cs[i] is Token) && (
        #[trigger] cs[j] is Token) ==> cs[i]->Token_0 != cs[j]->Token_0
}

/// Every token command counts at least one token.
pub open spec fn tokens_positive(cs: Seq<Cmd>) -> bool {
    forall|i: int| 0 <= i < cs.len() ==> !is_empty_token(#[trigger] cs[i])
}

proof fn lemma_initial_get(cs: Seq<Cmd>, i: int, m: Assoc<usize>, x: Seq<char>)
    requires
        0 <= i <= cs.len(),
        token_places_distinct(cs),
    ensures
        assoc_get(initial_tokens(cs, i, m), x) == (if exists|j: int|
            i <= j < cs.len() && is_token_for(cs, j, x) {
            Some(
                cs[choose|j: int| i <= j < cs.len() && is_token_for(cs, j, x)]->Token_1,
            )
        } else {
            assoc_get(m, x)
        }),
    decreases cs.len() - i,
{
    if i < cs.len() {
        match cs[i] {
            Cmd::Token(p, n) => {
                lemma_initial_get(cs, i + 1, assoc_set(m, p, n), x);
                lemma_assoc_set_get(m, p, n, x);
                if p == x {
                    assert(is_token_for(cs, i, x));
                    assert forall|j: int| i < j < cs.len() implies !is_token_for(cs, j, x) by {
                        if is_token_for(cs, j, x) {
                            assert(cs[i] is Token && cs[j] is Token);
                        }
                    }
                    let c = choose|j: int| i <= j < cs.len() && is_token_for(cs, j, x);
                    assert(c == i);
                } else {
                    if exists|j: int| i <= j < cs.len() && is_token_for(cs, j, x) {
                        let c = choose|j: int| i <= j < cs.len() && is_token_for(cs, j, x);
                        assert(c != i);
                        assert(exists|j: int| i + 1 <= j < cs.len() && is_token_for(cs, j, x));
                        let d = choose|j: int| i + 1 <= j < cs.len() && is_token_for(cs, j, x);
                        if c != d {
                            assert(cs[c] is Token && cs[d] is Token);
                        }
                    } else {
                        assert(!exists|j: int| i + 1 <= j < cs.len() && is_token_for(cs, j, x));
                    }
                }
            },
            _ => {
                lemma_initial_get(cs, i + 1, m, x);
                assert(!is_token_for(cs, i, x));
                if exists|j: int| i <= j < cs.len() && is_token_for(cs, j, x) {
                    let c = choose|j: int| i <= j < cs.len() && is_token_for(cs, j, x);
                    let d = choose|j: int| i + 1 <= j < cs.len() && is_token_for(cs, j, x);
                    assert(is_token_for(cs, d, x));
                    if c != d {
                        assert(cs[c] is Token && cs[d] is Token);
                    }
                }
            },
        }
    }
}

/// Whether some entry of `m` has key `x`.
pub open spec fn has_key<V>(m: Assoc<V>, x: Seq<char>) -> bool {
    exists|j: int| 0 <= j < m.len() && (#[trigger] m[j]).0 == x
}

proof fn lemma_set_keys<V>(m: Assoc<V>, k: Seq<char>, v: V, x: Seq<char>)
    requires
        has_key(assoc_set(m, k, v), x),
    ensures
        has_key(m, x) || x == k,
{
    lemma_key_index(m, k, 0);
    let m2 = assoc_set(m, k, v);
    let j = choose|j: int| 0 <= j < m2.len() && (#[trigger] m2[j]).0 == x;
    if x != k {
        if key_index(m, k, 0) >= 0 {
            assert(m2[j] == m[j]);
        } else {
            assert(j < m.len());
            assert(m2[j] == m[j]);
        }
    }
}

proof fn lemma_initial_keys(cs: Seq<Cmd>, i: int, m: Assoc<usize>, x: Seq<char>)
    requires
        0 <= i <= cs.len(),
        has_key(initial_tokens(cs, i, m), x),
    ensures
        has_key(m, x) || exists|j: int| i <= j < cs.len() && is_token_for(cs, j, x),
    decreases cs.len() - i,
{
    if i < cs.len() {
        match cs[i] {
            Cmd::Token(p, n) => {
                lemma_initial_keys(cs, i + 1, assoc_set(m, p, n), x);
                if has_key(assoc_set(m, p, n), x) {
                    lemma_set_keys(m, p, n, x);
                    if x == p {
                        assert(is_token_for(cs, i, x));
                    }
                } else {
                    let j = choose|j: int| i + 1 <= j < cs.len() && is_token_for(cs, j, x);
                    assert(is_token_for(cs, j, x));
                }
            },
            _ => {
                lemma_initial_keys(cs, i + 1, m, x);
                if !has_key(m, x) {
                    let j = choose|j: int| i + 1 <= j < cs.len() && is_token_for(cs, j, x);
                    assert(is_token_for(cs, j, x));
                }
            },
        }
    }
}

proof fn lemma_update_identity(cs: Seq<Cmd>, t: Assoc<usize>, i: int)
    requires
        0 <= i <= cs.len(),
        forall|j: int|
            0 <= j < cs.len() && (#[trigger] cs[j] is Token) ==> assoc_get(t, cs[j]->Token_0)
                == Some(cs[j]->Token_1),
    ensures
        update_tokens(cs, t, i, cs.take(i)) == cs,
    decreases cs.len() - i,
{
    if i == cs.len() {
        assert(cs.take(i) == cs);
    } else {
        assert(cs.take(i).push(cs[i]) =~= cs.take(i + 1));
        match cs[i] {
            Cmd::Token(p, n) => {
                assert(cs[i] is Token);
                assert(Cmd::Token(p, n) == cs[i]);
            },
            _ => {},
        }
        lemma_update_identity(cs, t, i + 1);
    }
}

proof fn lemma_missing_none(t: Assoc<usize>, cs: Seq<Cmd>, j: int)
    requires
        0 <= j,
        forall|k: int| 0 <= k < t.len() ==> has_token_for(cs, (#[trigger] t[k]).0),
    ensures
        add_missing_tokens(t, cs, j, cs) == cs,
    decreases t.len() - j,
{
    if j < t.len() {
        assert(has_token_for(cs, t[j].0));
        lemma_missing_none(t, cs, j + 1);
    }
}

proof fn lemma_drop_none(cs: Seq<Cmd>, i: int)
    requires
        0 <= i <= cs.len(),
        tokens_positive(cs),
    ensures
        drop_empty_tokens(cs, i, cs.take(i)) == cs,
    decreases cs.len() - i,
{
    if i == cs.len() {
        assert(cs.take(i) == cs);
    } else {
        assert(!is_empty_token(cs[i]));
        assert(cs.take(i).push(cs[i]) =~= cs.take(i + 1));
        lemma_drop_none(cs, i + 1);
    }
}

/// Zero steps leave a net unchanged when no place has two token commands
/// and no token command is empty.
pub proof fn law_zero_steps_identity(cs: Seq<Cmd>)
    requires
        token_places_distinct(cs),
        tokens_positive(cs),
    ensures
        steps_spec(cs, 0) == Some(cs),
{
    let t = initial_tokens(cs, 0, Seq::empty());
    assert forall|j: int|
        0 <= j < cs.len() && (#[trigger] cs[j] is Token) implies assoc_get(t, cs[j]->Token_0)
        == Some(cs[j]->Token_1) by {
        let x = cs[j]->Token_0;
        lemma_initial_get(cs, 0, Seq::empty(), x);
        assert(is_token_for(cs, j, x));
        let c = choose|c: int| 0 <= c < cs.len() && is_token_for(cs, c, x);
        if c != j {
            assert(cs[c] is Token);
        }
    }
    assert(cs.take(0) =~= Seq::<Cmd>::empty());
    lemma_update_identity(cs, t, 0);
    assert forall|k: int| 0 <= k < t.len() implies has_token_for(cs, (#[trigger] t[k]).0) by {
        assert(has_key(t, t[k].0));
        lemma_initial_keys(cs, 0, Seq::empty(), t[k].0);
        let j = choose|j: int| 0 <= j < cs.len() && is_token_for(cs, j, t[k].0);
        assert(cs[j] matches Cmd::Token(p, _) && p == t[k].0);
    }
    lemma_missing_none(t, cs, 0);
    lemma_drop_none(cs, 0);
}


/// No key occurs twice.
pub open spec fn keys_distinct<V>(m: Assoc<V>) -> bool {
    forall|i: int, j: int| 0 <= i < j < m.len() ==> (#[trigger] m[i]).0 != (#[trigger] m[j]).0
}

proof fn lemma_set_distinct<V>(m: Assoc<V>, k: Seq<char>, v: V)
    requires
        keys_distinct(m),
    ensures
        keys_distinct(assoc_set(m, k, v)),
{
    lemma_key_index(m, k, 0);
    let j = key_index(m, k, 0);
    let m2 = assoc_set(m, k, v);
    if j >= 0 {
        assert forall|a: int, b: int| 0 <= a < b < m2.len() implies (#[trigger] m2[a]).0 != (
        #[trigger] m2[b]).0 by {
            assert(m[a].0 != m[b].0);
        }
    } else {
        assert forall|a: int, b: int| 0 <= a < b < m2.len() implies (#[trigger] m2[a]).0 != (
        #[trigger] m2[b]).0 by {
            if b < m.len() {
                assert(m[a].0 != m[b].0);
            } else {
                assert(m2[a] == m[a]);
            }
        }
    }
}

proof fn lemma_initial_distinct(cs: Seq<Cmd>, i: int, m: Assoc<usize>)
    requires
        keys_distinct(m),
    ensures
        keys_distinct(initial_tokens(cs, i, m)),
    decreases cs.len() - i,
{
    if 0 <= i < cs.len() {
        match cs[i] {
            Cmd::Token(p, n) => {
                lemma_set_distinct(m, p, n);
                lemma_initial_distinct(cs, i + 1, assoc_set(m, p, n));
            },
            _ => {
                lemma_initial_distinct(cs, i + 1, m);
            },
        }
    }
}

proof fn lemma_consume_distinct(
    t: Assoc<usize>,
    table: Assoc<Assoc<usize>>,
    fired: Seq<int>,
    f: int,
    j: int,
)
    requires
        keys_distinct(t),
    ensures
        crate::steps::consume(t, table, fired, f, j) matches Some(r) ==> keys_distinct(r),
    decreases fired.len() - f, table[fired[f]].1.len() - j,
{
    if 0 <= f < fired.len() {
        if j < 0 || j >= table[fired[f]].1.len() {
            lemma_consume_distinct(t, table, fired, f + 1, 0);
        } else {
            let inp = table[fired[f]].1[j];
            match assoc_get(t, inp.0) {
                None => {
                    lemma_consume_distinct(t, table, fired, f, j + 1);
                },
                Some(have) => {
                    if have >= inp.1 {
                        lemma_set_distinct(t, inp.0, (have - inp.1) as usize);
                        lemma_consume_distinct(
                            assoc_set(t, inp.0, (have - inp.1) as usize),
                            table,
                            fired,
                            f,
                            j + 1,
                        );
                    }
                },
            }
        }
    }
}

proof fn lemma_produce_distinct(
    t: Assoc<usize>,
    table: Assoc<Assoc<usize>>,
    fired: Seq<int>,
    cs: Seq<Cmd>,
    f: int,
    c: int,
)
    requires
        keys_distinct(t),
    ensures
        crate::steps::produce(t, table, fired, cs, f, c) matches Some(r) ==> keys_distinct(r),
    decreases fired.len() - f, cs.len() - c,
{
    if 0 <= f < fired.len() {
        if c < 0 || c >= cs.len() {
            lemma_produce_distinct(t, table, fired, cs, f + 1, 0);
        } else {
            match cs[c] {
                Cmd::Connection { from, to, amount, from_transition, .. } => {
                    if from_transition && from == table[fired[f]].0 {
                        let total = crate::steps::count_of(t, to) + crate::text::parse_or_zero(
                            amount,
                        );
                        if total <= usize::MAX {
                            lemma_set_distinct(t, to, total as usize);
                            lemma_produce_distinct(
                                assoc_set(t, to, total as usize),
                                table,
                                fired,
                                cs,
                                f,
                                c + 1,
                            );
                        }
                    } else {
                        lemma_produce_distinct(t, table, fired, cs, f, c + 1);
                    }
                },
                _ => {
                    lemma_produce_distinct(t, table, fired, cs, f, c + 1);
                },
            }
        }
    }
}

proof fn lemma_run_distinct(t: Assoc<usize>, table: Assoc<Assoc<usize>>, cs: Seq<Cmd>, n: nat)
    requires
        keys_distinct(t),
    ensures
        crate::steps::run_steps(t, table, cs, n) matches Some(r) ==> keys_distinct(r),
    decreases n,
{
    if n > 0 {
        match crate::steps::select_fired(t, table, 0, Seq::empty(), Seq::empty()) {
            None => {},
            Some(fired) => {
                lemma_consume_distinct(t, table, fired, 0, 0);
                match crate::steps::consume(t, table, fired, 0, 0) {
                    None => {},
                    Some(t2) => {
                        lemma_produce_distinct(t2, table, fired, cs, 0, 0);
                        match crate::steps::produce(t2, table, fired, cs, 0, 0) {
                            None => {},
                            Some(t3) => {
                                lemma_run_distinct(t3, table, cs, (n - 1) as nat);
                            },
                        }
                    },
                }
            },
        }
    }
}

/// Every place occurs at most once among the counts, before and after any
/// number of steps.
pub proof fn law_marking_places_distinct(cs: Seq<Cmd>, n: nat)
    ensures
        crate::steps::marking_after(cs, n) matches Some(t) ==> keys_distinct(t),
{
    lemma_initial_distinct(cs, 0, Seq::empty());
    lemma_run_distinct(
        initial_tokens(cs, 0, Seq::empty()),
        crate::steps::input_table(cs, 0, Seq::empty()),
        cs,
        n,
    );
}

/// Whether one of the inputs `ins` needs more tokens than its place
/// holds in `tokens`.
pub open spec fn has_short_input(tokens: Assoc<usize>, ins: Assoc<usize>) -> bool {
    exists|j: int| 0 <= j < ins.len() && #[trigger] count_of(tokens, ins[j].0) < ins[j].1
}

/// Whether no transition of the net `cs` is enabled by its initial counts:
/// each has an input place holding fewer tokens than the arc's weight.
pub open spec fn none_enabled(cs: Seq<Cmd>) -> bool {
    let t0 = initial_tokens(cs, 0, Seq::empty());
    let table = input_table(cs, 0, Seq::empty());
    forall|k: int| 0 <= k < table.len() ==> has_short_input(t0, #[trigger] table[k].1)
}

proof fn lemma_short_input(tokens: Assoc<usize>, ins: Assoc<usize>, i: int, j: int)
    requires
        0 <= i <= j < ins.len(),
        count_of(tokens, ins[j].0) < ins[j].1,
    ensures
        inputs_available(tokens, Seq::empty(), ins, i) == Some(false),
    decreases j - i,
{
    assert(count_of(Seq::<(Seq<char>, usize)>::empty(), ins[i].0) == 0);
    if count_of(tokens, ins[i].0) >= ins[i].1 && i < j {
        lemma_short_input(tokens, ins, i + 1, j);
    }
}

proof fn lemma_none_fire(tokens: Assoc<usize>, table: Assoc<Assoc<usize>>, k: int)
    requires
        0 <= k,
        forall|m: int| 0 <= m < table.len() ==> has_short_input(tokens, #[trigger] table[m].1),
    ensures
        select_fired(tokens, table, k, Seq::empty(), Seq::empty()) == Some(Seq::<int>::empty()),
    decreases table.len() - k,
{
    if k < table.len() {
        let ins = table[k].1;
        assert(has_short_input(tokens, ins));
        let j = choose|j: int| 0 <= j < ins.len() && #[trigger] count_of(tokens, ins[j].0) < ins[j].1;
        lemma_short_input(tokens, ins, 0, j);
        lemma_none_fire(tokens, table, k + 1);
    }
}

proof fn lemma_quiet_run(tokens: Assoc<usize>, table: Assoc<Assoc<usize>>, cs: Seq<Cmd>, n: nat)
    requires
        step(tokens, table, cs) == Some(tokens),
    ensures
        run_steps(tokens, table, cs, n) == Some(tokens),
    decreases n,
{
    if n > 0 {
        lemma_quiet_run(tokens, table, cs, (n - 1) as nat);
    }
}

/// A net in which no transition is enabled stays as it is: any number of
/// steps gives what zero steps give.
pub proof fn law_no_enabled_transition_is_still(cs: Seq<Cmd>, n: nat)
    requires
        none_enabled(cs),
    ensures
        steps_spec(cs, n) == steps_spec(cs, 0),
{
    let t0 = initial_tokens(cs, 0, Seq::empty());
    let table = input_table(cs, 0, Seq::empty());
    lemma_none_fire(t0, table, 0);
    assert(consume(t0, table, Seq::empty(), 0, 0) == Some(t0));
    assert(produce(t0, table, Seq::empty(), cs, 0, 0) == Some(t0));
    assert(step(t0, table, cs) == Some(t0));
    lemma_quiet_run(t0, table, cs, n);
}

/// The check of a Petri-net output compares whole markings: it answers
/// correct exactly when the output's first counts and the counts before
/// the first step give every place the same count, or both none; so a place
/// that one of them counts and the other leaves out makes it a mismatch.
pub proof fn law_validate_compares_whole_markings(input: &Input, output: &Output)
    ensures
        net_verdict(input, output) <==> forall|p: Seq<char>|
            #[trigger] assoc_get(
                crate::steps::marking_after(crate::parser::parse_spec(input.commands@)->Ok_0, 0)->0,
                p,
            ) == assoc_get(crate::steps::counts_view(output.map@[0]@), p),
        forall|j: int|
            0 <= j < crate::steps::marking_after(
                crate::parser::parse_spec(input.commands@)->Ok_0,
                0,
            )->0.len() && assoc_get(
                crate::steps::counts_view(output.map@[0]@),
                (#[trigger] crate::steps::marking_after(
                    crate::parser::parse_spec(input.commands@)->Ok_0,
                    0,
                )->0[j]).0,
            ) is None ==> !net_verdict(input, output),
        forall|j: int|
            0 <= j < output.map@[0]@.len() && assoc_get(
                crate::steps::marking_after(crate::parser::parse_spec(input.commands@)->Ok_0, 0)->0,
                (#[trigger] output.map@[0]@[j]).0@,
            ) is None ==> !net_verdict(input, output),
{
    let r = crate::steps::marking_after(crate::parser::parse_spec(input.commands@)->Ok_0, 0)->0;
    let o = crate::steps::counts_view(output.map@[0]@);
    assert forall|j: int| 0 <= j < r.len() && assoc_get(o, (#[trigger] r[j]).0) is None implies !net_verdict(
        input,
        output,
    ) by {
        lemma_key_index(r, r[j].0, 0);
        assert(assoc_get(r, r[j].0) is Some);
    }
    assert forall|j: int|
        0 <= j < output.map@[0]@.len() && assoc_get(r, (#[trigger] output.map@[0]@[j]).0@)
            is None implies !net_verdict(input, output) by {
        assert(o[j].0 == output.map@[0]@[j].0@);
        lemma_key_index(o, o[j].0, 0);
        assert(assoc_get(o, o[j].0) is Some);
    }
}

/// A token count `n` on a declared place `p` relabels every node labelled
/// `p` with `p` followed by exactly `n` stars.
pub proof fn law_dot_token_stars(
    cs: Seq<Cmd>,
    i: int,
    lines: Seq<char>,
    places: Seq<Seq<char>>,
    transitions: Seq<Seq<char>>,
    p: Seq<char>,
    n: usize,
)
    requires
        0 <= i < cs.len(),
        cs[i] == Cmd::Token(p, n),
        places.contains(p),
    ensures
        dot_from(cs, i, lines, places, transitions) == dot_from(
            cs,
            i + 1,
            crate::text::replace_all(
                lines,
                "[label=\""@ + p + "\"]"@,
                "[label=\""@ + p + Seq::new(n as nat, |k: int| '*') + "\"]"@,
            ),
            places,
            transitions,
        ),
{
    assert(crate::text::stars(n as nat) =~= Seq::new(n as nat, |k: int| '*'));
    assert(p + crate::text::stars(n as nat) + "\"]"@ =~= p + Seq::new(n as nat, |k: int| '*')
        + "\"]"@);
    assert("[label=\""@ + (p + crate::text::stars(n as nat)) + "\"]"@ =~= "[label=\""@ + p
        + Seq::new(n as nat, |k: int| '*') + "\"]"@);
}

} // verus!
