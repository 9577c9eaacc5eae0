//! Simulating a net that `steps` wrote out: the counts go on as if the
//! steps had been taken in one run.
use vstd::prelude::*;

use crate::command::Cmd;
use crate::laws::{
    connections_of, keys_distinct, law_marking_places_distinct, law_steps_compose,
    law_steps_keep_connections, lemma_assoc_set_get, lemma_connections_concat, lemma_connections_front,
    lemma_connections_single,
};
use crate::steps::{
    add_missing_tokens, assoc_get, assoc_set, consume, count_of, drop_empty_tokens,
    has_token_for, initial_tokens, input_table, inputs_available, is_empty_token, key_index,
    lemma_key_index, marking_after, produce, render, reserve_inputs, run_steps, select_fired, step, steps_spec,
    update_tokens, Assoc,
};

verus! {

/// Building the input table from inside the second of two command lists
/// ignores the first.
proof fn lemma_table_shift(q: Seq<Cmd>, p: Seq<Cmd>, j: int, t: Assoc<Assoc<usize>>)
    requires
        0 <= j,
    ensures
        input_table(q + p, q.len() + j, t) == input_table(p, j, t),
    decreases p.len() - j,
{
    if j < p.len() {
        assert((q + p)[q.len() + j] == p[j]);
        match p[j] {
            Cmd::Connection { from, to, amount, to_transition, .. } => {
                if to_transition {
                    let ins = match assoc_get(t, to) {
                        Some(ins) => ins,
                        None => Seq::empty(),
                    };
                    lemma_table_shift(
                        q,
                        p,
                        j + 1,
                        assoc_set(t, to, ins.push((from, crate::text::parse_or_zero(amount)))),
                    );
                } else {
                    lemma_table_shift(q, p, j + 1, t);
                }
            },
            _ => {
                lemma_table_shift(q, p, j + 1, t);
            },
        }
    }
}

/// The input table is built from the connections alone.
proof fn lemma_table_conns(cs: Seq<Cmd>, i: int, t: Assoc<Assoc<usize>>)
    requires
        0 <= i <= cs.len(),
    ensures
        input_table(cs, i, t) == input_table(
            connections_of(cs.subrange(i, cs.len() as int)),
            0,
            t,
        ),
    decreases cs.len() - i,
{
    if i == cs.len() {
        assert(cs.subrange(i, cs.len() as int) =~= Seq::<Cmd>::empty());
        assert(connections_of(Seq::<Cmd>::empty()) == Seq::<Cmd>::empty());
    } else {
        lemma_connections_front(cs, i);
        lemma_connections_single(cs[i]);
        let rest = connections_of(cs.subrange(i + 1, cs.len() as int));
        match cs[i] {
            Cmd::Connection { from, to, amount, to_transition, .. } => {
                assert(connections_of(cs.subrange(i, cs.len() as int)) == seq![cs[i]] + rest);
                assert((seq![cs[i]] + rest)[0] == cs[i]);
                let t2 = if to_transition {
                    let ins = match assoc_get(t, to) {
                        Some(ins) => ins,
                        None => Seq::empty(),
                    };
                    assoc_set(t, to, ins.push((from, crate::text::parse_or_zero(amount))))
                } else {
                    t
                };
                lemma_table_conns(cs, i + 1, t2);
                lemma_table_shift(seq![cs[i]], rest, 0, t2);
            },
            _ => {
                assert(Seq::<Cmd>::empty() + rest == rest);
                lemma_table_conns(cs, i + 1, t);
            },
        }
    }
}

/// Two command lists with the same connections give the same input table.
pub(crate) proof fn lemma_table_same(cs1: Seq<Cmd>, cs2: Seq<Cmd>)
    requires
        connections_of(cs1) == connections_of(cs2),
    ensures
        input_table(cs1, 0, Seq::empty()) == input_table(cs2, 0, Seq::empty()),
{
    lemma_table_conns(cs1, 0, Seq::empty());
    lemma_table_conns(cs2, 0, Seq::empty());
    assert(cs1.subrange(0, cs1.len() as int) == cs1);
    assert(cs2.subrange(0, cs2.len() as int) == cs2);
}

/// Adding outputs walks the connections alone.
proof fn lemma_produce_conns(
    tok: Assoc<usize>,
    tb: Assoc<Assoc<usize>>,
    fired: Seq<int>,
    cs1: Seq<Cmd>,
    cs2: Seq<Cmd>,
    f: int,
    c1: int,
    c2: int,
)
    requires
        0 <= f,
        0 <= c1 <= cs1.len(),
        0 <= c2 <= cs2.len(),
        connections_of(cs1) == connections_of(cs2),
        connections_of(cs1.subrange(c1, cs1.len() as int)) == connections_of(
            cs2.subrange(c2, cs2.len() as int),
        ),
    ensures
        produce(tok, tb, fired, cs1, f, c1) == produce(tok, tb, fired, cs2, f, c2),
    decreases fired.len() - f, cs1.len() - c1 + cs2.len() - c2,
{
    if f >= fired.len() {
    } else if c1 < cs1.len() && !(cs1[c1] is Connection) {
        lemma_connections_front(cs1, c1);
        lemma_connections_single(cs1[c1]);
        assert(Seq::<Cmd>::empty() + connections_of(cs1.subrange(c1 + 1, cs1.len() as int))
            == connections_of(cs1.subrange(c1 + 1, cs1.len() as int)));
        lemma_produce_conns(tok, tb, fired, cs1, cs2, f, c1 + 1, c2);
    } else if c2 < cs2.len() && !(cs2[c2] is Connection) {
        lemma_connections_front(cs2, c2);
        lemma_connections_single(cs2[c2]);
        assert(Seq::<Cmd>::empty() + connections_of(cs2.subrange(c2 + 1, cs2.len() as int))
            == connections_of(cs2.subrange(c2 + 1, cs2.len() as int)));
        lemma_produce_conns(tok, tb, fired, cs1, cs2, f, c1, c2 + 1);
    } else if c1 == cs1.len() || c2 == cs2.len() {
        assert(cs1.subrange(c1, cs1.len() as int).len() == cs1.len() - c1);
        if c1 == cs1.len() {
            assert(cs1.subrange(c1, cs1.len() as int) =~= Seq::<Cmd>::empty());
            assert(connections_of(Seq::<Cmd>::empty()) == Seq::<Cmd>::empty());
        }
        if c2 == cs2.len() {
            assert(cs2.subrange(c2, cs2.len() as int) =~= Seq::<Cmd>::empty());
            assert(connections_of(Seq::<Cmd>::empty()) == Seq::<Cmd>::empty());
        }
        if c1 < cs1.len() {
            lemma_connections_front(cs1, c1);
            lemma_connections_single(cs1[c1]);
            assert(connections_of(cs1.subrange(c1, cs1.len() as int)).len() > 0);
        }
        if c2 < cs2.len() {
            lemma_connections_front(cs2, c2);
            lemma_connections_single(cs2[c2]);
            assert(connections_of(cs2.subrange(c2, cs2.len() as int)).len() > 0);
        }
        assert(cs1.subrange(0, cs1.len() as int) == cs1);
        assert(cs2.subrange(0, cs2.len() as int) == cs2);
        lemma_produce_conns(tok, tb, fired, cs1, cs2, f + 1, 0, 0);
    } else {
        lemma_connections_front(cs1, c1);
        lemma_connections_single(cs1[c1]);
        lemma_connections_front(cs2, c2);
        lemma_connections_single(cs2[c2]);
        let r1 = connections_of(cs1.subrange(c1 + 1, cs1.len() as int));
        let r2 = connections_of(cs2.subrange(c2 + 1, cs2.len() as int));
        assert((seq![cs1[c1]] + r1)[0] == cs1[c1]);
        assert((seq![cs2[c2]] + r2)[0] == cs2[c2]);
        assert(cs1[c1] == cs2[c2]);
        assert(r1 =~= (seq![cs1[c1]] + r1).skip(1));
        assert(r2 =~= (seq![cs2[c2]] + r2).skip(1));
        match cs1[c1] {
            Cmd::Connection { from, to, amount, from_transition, .. } => {
                if from_transition && from == tb[fired[f]].0 {
                    let total = count_of(tok, to) + crate::text::parse_or_zero(amount);
                    if total <= usize::MAX {
                        lemma_produce_conns(
                            assoc_set(tok, to, total as usize),
                            tb,
                            fired,
                            cs1,
                            cs2,
                            f,
                            c1 + 1,
                            c2 + 1,
                        );
                    }
                } else {
                    lemma_produce_conns(tok, tb, fired, cs1, cs2, f, c1 + 1, c2 + 1);
                }
            },
            _ => {},
        }
    }
}

/// Whether `a` gives every place the count that `b` gives it, and names no
/// place that `b` does not.
pub open spec fn covered(a: Assoc<usize>, b: Assoc<usize>) -> bool {
    &&& forall|k: Seq<char>| #[trigger] count_of(a, k) == count_of(b, k)
    &&& forall|k: Seq<char>| #[trigger] assoc_get(a, k) is Some ==> assoc_get(b, k) is Some
}

proof fn lemma_cover_set(a: Assoc<usize>, b: Assoc<usize>, k: Seq<char>, v: usize)
    requires
        covered(a, b),
    ensures
        covered(assoc_set(a, k, v), assoc_set(b, k, v)),
{
    assert forall|x: Seq<char>| #[trigger]
        count_of(assoc_set(a, k, v), x) == count_of(assoc_set(b, k, v), x) by {
        lemma_assoc_set_get(a, k, v, x);
        lemma_assoc_set_get(b, k, v, x);
        assert(count_of(a, x) == count_of(b, x));
    }
    assert forall|x: Seq<char>| #[trigger] assoc_get(assoc_set(a, k, v), x) is Some implies assoc_get(
        assoc_set(b, k, v),
        x,
    ) is Some by {
        lemma_assoc_set_get(a, k, v, x);
        lemma_assoc_set_get(b, k, v, x);
        if x != k {
            assert(assoc_get(a, x) is Some);
        }
    }
}

proof fn lemma_cover_set_zero(a: Assoc<usize>, b: Assoc<usize>, k: Seq<char>)
    requires
        covered(a, b),
        assoc_get(a, k) is None,
    ensures
        covered(a, assoc_set(b, k, 0)),
{
    assert forall|x: Seq<char>| #[trigger] count_of(a, x) == count_of(assoc_set(b, k, 0), x) by {
        lemma_assoc_set_get(b, k, 0, x);
        assert(count_of(a, x) == count_of(b, x));
    }
    assert forall|x: Seq<char>| #[trigger] assoc_get(a, x) is Some implies assoc_get(
        assoc_set(b, k, 0),
        x,
    ) is Some by {
        lemma_assoc_set_get(b, k, 0, x);
    }
}

proof fn lemma_avail_same(
    a: Assoc<usize>,
    b: Assoc<usize>,
    r: Assoc<usize>,
    ins: Assoc<usize>,
    j: int,
)
    requires
        covered(a, b),
    ensures
        inputs_available(a, r, ins, j) == inputs_available(b, r, ins, j),
    decreases ins.len() - j,
{
    if 0 <= j < ins.len() {
        assert(count_of(a, ins[j].0) == count_of(b, ins[j].0));
        lemma_avail_same(a, b, r, ins, j + 1);
    }
}

proof fn lemma_select_same(
    a: Assoc<usize>,
    b: Assoc<usize>,
    tb: Assoc<Assoc<usize>>,
    k: int,
    r: Assoc<usize>,
    fired: Seq<int>,
)
    requires
        covered(a, b),
    ensures
        select_fired(a, tb, k, r, fired) == select_fired(b, tb, k, r, fired),
    decreases tb.len() - k,
{
    if 0 <= k < tb.len() {
        lemma_avail_same(a, b, r, tb[k].1, 0);
        match inputs_available(b, r, tb[k].1, 0) {
            Some(false) => {
                lemma_select_same(a, b, tb, k + 1, r, fired);
            },
            Some(true) => match reserve_inputs(r, tb[k].1, 0) {
                Some(r2) => {
                    lemma_select_same(a, b, tb, k + 1, r2, fired.push(k));
                },
                None => {},
            },
            None => {},
        }
    }
}

proof fn lemma_consume_cover(
    a: Assoc<usize>,
    b: Assoc<usize>,
    tb: Assoc<Assoc<usize>>,
    fired: Seq<int>,
    f: int,
    j: int,
)
    requires
        covered(a, b),
        consume(b, tb, fired, f, j) is Some,
    ensures
        consume(a, tb, fired, f, j) is Some,
        covered(consume(a, tb, fired, f, j)->0, consume(b, tb, fired, f, j)->0),
    decreases fired.len() - f, tb[fired[f]].1.len() - j,
{
    if f < 0 || f >= fired.len() {
    } else if j < 0 || j >= tb[fired[f]].1.len() {
        lemma_consume_cover(a, b, tb, fired, f + 1, 0);
    } else {
        let inp = tb[fired[f]].1[j];
        assert(count_of(a, inp.0) == count_of(b, inp.0));
        match assoc_get(b, inp.0) {
            None => {
                assert(assoc_get(a, inp.0) is None) by {
                    if assoc_get(a, inp.0) is Some {
                        assert(assoc_get(b, inp.0) is Some);
                    }
                }
                lemma_consume_cover(a, b, tb, fired, f, j + 1);
            },
            Some(t) => {
                let b2 = assoc_set(b, inp.0, (t - inp.1) as usize);
                match assoc_get(a, inp.0) {
                    Some(t2) => {
                        assert(t2 == t);
                        lemma_cover_set(a, b, inp.0, (t - inp.1) as usize);
                        lemma_consume_cover(
                            assoc_set(a, inp.0, (t - inp.1) as usize),
                            b2,
                            tb,
                            fired,
                            f,
                            j + 1,
                        );
                    },
                    None => {
                        assert(t == 0);
                        assert((t - inp.1) as usize == 0);
                        lemma_cover_set_zero(a, b, inp.0);
                        lemma_consume_cover(a, b2, tb, fired, f, j + 1);
                    },
                }
            },
        }
    }
}

proof fn lemma_produce_cover(
    a: Assoc<usize>,
    b: Assoc<usize>,
    tb: Assoc<Assoc<usize>>,
    fired: Seq<int>,
    cs: Seq<Cmd>,
    f: int,
    c: int,
)
    requires
        covered(a, b),
        produce(b, tb, fired, cs, f, c) is Some,
    ensures
        produce(a, tb, fired, cs, f, c) is Some,
        covered(produce(a, tb, fired, cs, f, c)->0, produce(b, tb, fired, cs, f, c)->0),
    decreases fired.len() - f, cs.len() - c,
{
    if f < 0 || f >= fired.len() {
    } else if c < 0 || c >= cs.len() {
        lemma_produce_cover(a, b, tb, fired, cs, f + 1, 0);
    } else {
        match cs[c] {
            Cmd::Connection { from, to, amount, from_transition, .. } => {
                if from_transition && from == tb[fired[f]].0 {
                    assert(count_of(a, to) == count_of(b, to));
                    let total = count_of(b, to) + crate::text::parse_or_zero(amount);
                    if total <= usize::MAX {
                        lemma_cover_set(a, b, to, total as usize);
                        lemma_produce_cover(
                            assoc_set(a, to, total as usize),
                            assoc_set(b, to, total as usize),
                            tb,
                            fired,
                            cs,
                            f,
                            c + 1,
                        );
                    }
                } else {
                    lemma_produce_cover(a, b, tb, fired, cs, f, c + 1);
                }
            },
            _ => {
                lemma_produce_cover(a, b, tb, fired, cs, f, c + 1);
            },
        }
    }
}

proof fn lemma_step_cover(
    a: Assoc<usize>,
    b: Assoc<usize>,
    tb: Assoc<Assoc<usize>>,
    cs1: Seq<Cmd>,
    cs2: Seq<Cmd>,
)
    requires
        covered(a, b),
        connections_of(cs1) == connections_of(cs2),
        step(b, tb, cs2) is Some,
    ensures
        step(a, tb, cs1) is Some,
        covered(step(a, tb, cs1)->0, step(b, tb, cs2)->0),
{
    lemma_select_same(a, b, tb, 0, Seq::empty(), Seq::empty());
    let fired = select_fired(b, tb, 0, Seq::empty(), Seq::empty())->0;
    lemma_consume_cover(a, b, tb, fired, 0, 0);
    let a1 = consume(a, tb, fired, 0, 0)->0;
    let b1 = consume(b, tb, fired, 0, 0)->0;
    lemma_produce_cover(a1, b1, tb, fired, cs2, 0, 0);
    assert(cs1.subrange(0, cs1.len() as int) == cs1);
    assert(cs2.subrange(0, cs2.len() as int) == cs2);
    lemma_produce_conns(a1, tb, fired, cs1, cs2, 0, 0, 0);
}

proof fn lemma_run_cover(
    a: Assoc<usize>,
    b: Assoc<usize>,
    tb: Assoc<Assoc<usize>>,
    cs1: Seq<Cmd>,
    cs2: Seq<Cmd>,
    n: nat,
)
    requires
        covered(a, b),
        connections_of(cs1) == connections_of(cs2),
        run_steps(b, tb, cs2, n) is Some,
    ensures
        run_steps(a, tb, cs1, n) is Some,
        covered(run_steps(a, tb, cs1, n)->0, run_steps(b, tb, cs2, n)->0),
    decreases n,
{
    if n > 0 {
        lemma_step_cover(a, b, tb, cs1, cs2);
        lemma_run_cover(
            step(a, tb, cs1)->0,
            step(b, tb, cs2)->0,
            tb,
            cs1,
            cs2,
            (n - 1) as nat,
        );
    }
}

/// The count of the last `Token` command for `p` in `s`, if any.
pub open spec fn tok_last(s: Seq<Cmd>, p: Seq<char>) -> Option<usize>
    decreases s.len(),
{
    if s.len() == 0 {
        None
    } else {
        match s.last() {
            Cmd::Token(q, v) => if q == p {
                Some(v)
            } else {
                tok_last(s.drop_last(), p)
            },
            _ => tok_last(s.drop_last(), p),
        }
    }
}

proof fn lemma_tok_last_concat(a: Seq<Cmd>, b: Seq<Cmd>, p: Seq<char>)
    ensures
        tok_last(a + b, p) == (match tok_last(b, p) {
            Some(v) => Some(v),
            None => tok_last(a, p),
        }),
    decreases b.len(),
{
    if b.len() == 0 {
        assert(a + b == a);
    } else {
        assert((a + b).drop_last() == a + b.drop_last());
        assert((a + b).last() == b.last());
        lemma_tok_last_concat(a, b.drop_last(), p);
    }
}

proof fn lemma_tok_last_push(a: Seq<Cmd>, c: Cmd, p: Seq<char>)
    ensures
        tok_last(a.push(c), p) == (match c {
            Cmd::Token(q, v) => if q == p {
                Some(v)
            } else {
                tok_last(a, p)
            },
            _ => tok_last(a, p),
        }),
{
    assert(a.push(c).drop_last() == a);
    assert(a.push(c).last() == c);
}

/// The initial count of a place is that of its last `Token` command.
proof fn lemma_initial_last(cs: Seq<Cmd>, i: int, m: Assoc<usize>, p: Seq<char>)
    requires
        0 <= i <= cs.len(),
    ensures
        assoc_get(initial_tokens(cs, i, m), p) == (match tok_last(
            cs.subrange(i, cs.len() as int),
            p,
        ) {
            Some(v) => Some(v),
            None => assoc_get(m, p),
        }),
    decreases cs.len() - i,
{
    if i == cs.len() {
        assert(cs.subrange(i, cs.len() as int) =~= Seq::<Cmd>::empty());
    } else {
        let rest = cs.subrange(i + 1, cs.len() as int);
        assert(cs.subrange(i, cs.len() as int) =~= seq![cs[i]] + rest);
        lemma_tok_last_concat(seq![cs[i]], rest, p);
        lemma_tok_last_push(Seq::empty(), cs[i], p);
        assert(Seq::<Cmd>::empty().push(cs[i]) == seq![cs[i]]);
        match cs[i] {
            Cmd::Token(q, n) => {
                lemma_initial_last(cs, i + 1, assoc_set(m, q, n), p);
                lemma_assoc_set_get(m, q, n, p);
            },
            _ => {
                lemma_initial_last(cs, i + 1, m, p);
            },
        }
    }
}

/// Every `Token` command of `s` carries the count that `t` gives its place.
pub open spec fn tok_ok(s: Seq<Cmd>, t: Assoc<usize>) -> bool {
    forall|j: int|
        0 <= j < s.len() && (#[trigger] s[j] is Token) ==> assoc_get(t, s[j]->Token_0) == Some(
            s[j]->Token_1,
        )
}

proof fn lemma_tok_ok_push(s: Seq<Cmd>, t: Assoc<usize>, c: Cmd)
    requires
        tok_ok(s, t),
        c is Token ==> assoc_get(t, c->Token_0) == Some(c->Token_1),
    ensures
        tok_ok(s.push(c), t),
{
    assert forall|j: int| 0 <= j < s.push(c).len() && (#[trigger] s.push(c)[j] is Token) implies assoc_get(
        t,
        s.push(c)[j]->Token_0,
    ) == Some(s.push(c)[j]->Token_1) by {
        if j < s.len() {
            assert(s.push(c)[j] == s[j]);
        }
    }
}

proof fn lemma_update_ok(cs: Seq<Cmd>, t: Assoc<usize>, i: int, acc: Seq<Cmd>)
    requires
        0 <= i,
        tok_ok(acc, t),
    ensures
        tok_ok(update_tokens(cs, t, i, acc), t),
    decreases cs.len() - i,
{
    if i < cs.len() {
        match cs[i] {
            Cmd::Token(place, _) => match assoc_get(t, place) {
                Some(v) => {
                    lemma_tok_ok_push(acc, t, Cmd::Token(place, v));
                    lemma_update_ok(cs, t, i + 1, acc.push(Cmd::Token(place, v)));
                },
                None => {
                    lemma_update_ok(cs, t, i + 1, acc);
                },
            },
            _ => {
                lemma_tok_ok_push(acc, t, cs[i]);
                lemma_update_ok(cs, t, i + 1, acc.push(cs[i]));
            },
        }
    }
}

/// With distinct keys, an entry is what a lookup of its key finds.
proof fn lemma_entry_get(t: Assoc<usize>, j: int)
    requires
        keys_distinct(t),
        0 <= j < t.len(),
    ensures
        assoc_get(t, t[j].0) == Some(t[j].1),
{
    lemma_key_index(t, t[j].0, 0);
    let k = key_index(t, t[j].0, 0);
    if k < 0 {
        assert(t[j].0 != t[j].0);
    } else if k < j {
        assert(t[k].0 != t[j].0);
    } else if k > j {
        assert(t[j].0 != t[j].0);
    }
}

proof fn lemma_missing_ok(t: Assoc<usize>, existing: Seq<Cmd>, j: int, acc: Seq<Cmd>)
    requires
        0 <= j,
        keys_distinct(t),
        tok_ok(acc, t),
    ensures
        tok_ok(add_missing_tokens(t, existing, j, acc), t),
    decreases t.len() - j,
{
    if j < t.len() {
        if has_token_for(existing, t[j].0) {
            lemma_missing_ok(t, existing, j + 1, acc);
        } else {
            lemma_entry_get(t, j);
            lemma_tok_ok_push(acc, t, Cmd::Token(t[j].0, t[j].1));
            lemma_missing_ok(t, existing, j + 1, acc.push(Cmd::Token(t[j].0, t[j].1)));
        }
    }
}

proof fn lemma_has_token_push(s: Seq<Cmd>, c: Cmd, p: Seq<char>)
    ensures
        has_token_for(s.push(c), p) <==> (has_token_for(s, p) || (c matches Cmd::Token(q, _)
            && q == p)),
{
    let s2 = s.push(c);
    if has_token_for(s2, p) {
        let i = choose|i: int|
            0 <= i < s2.len() && (#[trigger] s2[i] matches Cmd::Token(q, _) && q == p);
        if i < s.len() {
            assert(s2[i] == s[i]);
        }
    }
    if has_token_for(s, p) {
        let i = choose|i: int|
            0 <= i < s.len() && (#[trigger] s[i] matches Cmd::Token(q, _) && q == p);
        assert(s2[i] == s[i]);
    }
    if c matches Cmd::Token(q, _) && q == p {
        assert(s2[s.len() as int] == c);
    }
}

proof fn lemma_missing_has(
    t: Assoc<usize>,
    existing: Seq<Cmd>,
    j: int,
    acc: Seq<Cmd>,
    p: Seq<char>,
    k: int,
)
    requires
        0 <= j,
        has_token_for(acc, p) || (j <= k < t.len() && t[k].0 == p && !has_token_for(
            existing,
            p,
        )),
    ensures
        has_token_for(add_missing_tokens(t, existing, j, acc), p),
    decreases t.len() - j,
{
    if j < t.len() {
        if has_token_for(existing, t[j].0) {
            lemma_missing_has(t, existing, j + 1, acc, p, k);
        } else {
            let c = Cmd::Token(t[j].0, t[j].1);
            lemma_has_token_push(acc, c, p);
            lemma_missing_has(t, existing, j + 1, acc.push(c), p, k);
        }
    }
}

proof fn lemma_has_token_front(s: Seq<Cmd>, i: int, p: Seq<char>)
    requires
        0 <= i < s.len(),
    ensures
        has_token_for(s.subrange(i, s.len() as int), p) <==> ((s[i] matches Cmd::Token(q, _)
            && q == p) || has_token_for(s.subrange(i + 1, s.len() as int), p)),
{
    let a = s.subrange(i, s.len() as int);
    let b = s.subrange(i + 1, s.len() as int);
    if has_token_for(a, p) {
        let x = choose|x: int| 0 <= x < a.len() && (#[trigger] a[x] matches Cmd::Token(q, _) && q == p);
        if x > 0 {
            assert(b[x - 1] == a[x]);
        }
    }
    if has_token_for(b, p) {
        let x = choose|x: int| 0 <= x < b.len() && (#[trigger] b[x] matches Cmd::Token(q, _) && q == p);
        assert(a[x + 1] == b[x]);
    }
    if s[i] matches Cmd::Token(q, _) && q == p {
        assert(a[0] == s[i]);
    }
}

proof fn lemma_drop_last_token(s: Seq<Cmd>, t: Assoc<usize>, i: int, acc: Seq<Cmd>, p: Seq<char>)
    requires
        0 <= i <= s.len(),
        tok_ok(s, t),
    ensures
        tok_last(drop_empty_tokens(s, i, acc), p) == (if has_token_for(
            s.subrange(i, s.len() as int),
            p,
        ) && assoc_get(t, p)->0 > 0 {
            assoc_get(t, p)
        } else {
            tok_last(acc, p)
        }),
    decreases s.len() - i,
{
    if i == s.len() {
        assert(s.subrange(i, s.len() as int) =~= Seq::<Cmd>::empty());
    } else {
        lemma_has_token_front(s, i, p);
        assert(s[i] is Token ==> assoc_get(t, s[i]->Token_0) == Some(s[i]->Token_1));
        if is_empty_token(s[i]) {
            lemma_drop_last_token(s, t, i + 1, acc, p);
        } else {
            lemma_tok_last_push(acc, s[i], p);
            lemma_drop_last_token(s, t, i + 1, acc.push(s[i]), p);
        }
    }
}

/// The token commands that `steps` writes out give each place the count
/// that the run reached.
pub(crate) proof fn lemma_render_cover(cs: Seq<Cmd>, t: Assoc<usize>)
    requires
        keys_distinct(t),
    ensures
        covered(initial_tokens(render(cs, t), 0, Seq::empty()), t),
{
    let u = update_tokens(cs, t, 0, Seq::empty());
    let all = add_missing_tokens(t, u, 0, u);
    let r = render(cs, t);
    let i0 = initial_tokens(r, 0, Seq::empty());
    lemma_update_ok(cs, t, 0, Seq::empty());
    lemma_missing_ok(t, u, 0, u);
    assert forall|p: Seq<char>| #[trigger] assoc_get(i0, p) == (if assoc_get(t, p) matches Some(
        v,
    ) && v > 0 {
        assoc_get(t, p)
    } else {
        None
    }) by {
        lemma_initial_last(r, 0, Seq::empty(), p);
        assert(r.subrange(0, r.len() as int) == r);
        lemma_drop_last_token(all, t, 0, Seq::empty(), p);
        assert(all.subrange(0, all.len() as int) == all);
        if has_token_for(all, p) {
            let x = choose|x: int|
                0 <= x < all.len() && (#[trigger] all[x] matches Cmd::Token(q, _) && q == p);
            assert(all[x] is Token);
        }
        if assoc_get(t, p) is Some {
            lemma_key_index(t, p, 0);
            let k = key_index(t, p, 0);
            lemma_missing_has(t, u, 0, u, p, k);
        }
    }
    assert forall|p: Seq<char>| #[trigger] count_of(i0, p) == count_of(t, p) by {
        assert(assoc_get(i0, p) == (if assoc_get(t, p) matches Some(v) && v > 0 {
            assoc_get(t, p)
        } else {
            None
        }));
    }
    assert forall|p: Seq<char>| #[trigger] assoc_get(i0, p) is Some implies assoc_get(t, p) is Some by {
        assert(assoc_get(i0, p) == (if assoc_get(t, p) matches Some(v) && v > 0 {
            assoc_get(t, p)
        } else {
            None
        }));
    }
}

/// Simulating `n` more steps of the net that `steps` wrote out after `m`
/// steps gives every place the count that `m + n` steps give it, wherever
/// the `m + n` steps keep every count within `usize` (the inputs on which
/// `steps` is defined).
pub proof fn law_steps_of_steps(cs: Seq<Cmd>, m: nat, n: nat)
    requires
        steps_spec(cs, m + n) is Some,
    ensures
        steps_spec(steps_spec(cs, m)->0, n) is Some,
        forall|p: Seq<char>|
            #[trigger] count_of(
                initial_tokens(steps_spec(steps_spec(cs, m)->0, n)->0, 0, Seq::empty()),
                p,
            ) == count_of(initial_tokens(steps_spec(cs, m + n)->0, 0, Seq::empty()), p),
{
    let t0 = initial_tokens(cs, 0, Seq::empty());
    let tb = input_table(cs, 0, Seq::empty());
    law_steps_compose(t0, tb, cs, m, n);
    let t = marking_after(cs, m)->0;
    let t2 = marking_after(cs, m + n)->0;
    let x = render(cs, t);
    law_marking_places_distinct(cs, m);
    law_marking_places_distinct(cs, m + n);
    lemma_render_cover(cs, t);
    lemma_render_cover(cs, t2);
    law_steps_keep_connections(cs, m);
    lemma_table_same(x, cs);
    let i0 = initial_tokens(x, 0, Seq::empty());
    lemma_run_cover(i0, t, tb, x, cs, n);
    let a = marking_after(x, n)->0;
    law_marking_places_distinct(x, n);
    lemma_render_cover(x, a);
    let r1 = initial_tokens(render(x, a), 0, Seq::empty());
    let r2 = initial_tokens(render(cs, t2), 0, Seq::empty());
    assert forall|p: Seq<char>| #[trigger] count_of(r1, p) == count_of(r2, p) by {
        assert(count_of(r1, p) == count_of(a, p));
        assert(count_of(a, p) == count_of(t2, p));
        assert(count_of(r2, p) == count_of(t2, p));
    }
}

/// The total weight of the inputs `ins[j..]` taken from the place `p`.
pub open spec fn in_weight(ins: Assoc<usize>, p: Seq<char>, j: int) -> int
    decreases ins.len() - j,
{
    if j < 0 || j >= ins.len() {
        0
    } else {
        (if ins[j].0 == p {
            ins[j].1 as int
        } else {
            0
        }) + in_weight(ins, p, j + 1)
    }
}

/// The total weight that the transitions `fired[f..]` take from `p`: the
/// weights of all of `p`'s arcs into them.
pub open spec fn taken(tb: Assoc<Assoc<usize>>, fired: Seq<int>, p: Seq<char>, f: int) -> int
    decreases fired.len() - f,
{
    if f < 0 || f >= fired.len() {
        0
    } else {
        in_weight(tb[fired[f]].1, p, 0) + taken(tb, fired, p, f + 1)
    }
}

/// The total weight of the arcs of `cs[c..]` from the transition `t` into
/// the place `p`.
pub open spec fn out_weight(cs: Seq<Cmd>, t: Seq<char>, p: Seq<char>, c: int) -> int
    decreases cs.len() - c,
{
    if c < 0 || c >= cs.len() {
        0
    } else {
        (match cs[c] {
            Cmd::Connection { from, to, amount, from_transition, .. } => if from_transition && from
                == t && to == p {
                crate::text::parse_or_zero(amount) as int
            } else {
                0
            },
            _ => 0,
        }) + out_weight(cs, t, p, c + 1)
    }
}

/// The total weight that the transitions `fired[f..]` give to `p`: the
/// weights of all their arcs into `p`.
pub open spec fn given(
    tb: Assoc<Assoc<usize>>,
    fired: Seq<int>,
    cs: Seq<Cmd>,
    p: Seq<char>,
    f: int,
) -> int
    decreases fired.len() - f,
{
    if f < 0 || f >= fired.len() {
        0
    } else {
        out_weight(cs, tb[fired[f]].0, p, 0) + given(tb, fired, cs, p, f + 1)
    }
}

/// Whether `k` is a transition of `tb` all of whose inputs find their
/// weight in `tokens`.
pub open spec fn covered_transition(tokens: Assoc<usize>, tb: Assoc<Assoc<usize>>, k: int) -> bool {
    &&& 0 <= k < tb.len()
    &&& forall|j: int|
        0 <= j < tb[k].1.len() ==> count_of(tokens, (#[trigger] tb[k].1[j]).0) >= tb[k].1[j].1
}

proof fn lemma_available_covers(
    tokens: Assoc<usize>,
    r: Assoc<usize>,
    ins: Assoc<usize>,
    j: int,
)
    requires
        0 <= j,
        inputs_available(tokens, r, ins, j) == Some(true),
    ensures
        forall|m: int| j <= m < ins.len() ==> count_of(tokens, (#[trigger] ins[m]).0) >= ins[m].1,
    decreases ins.len() - j,
{
    if j < ins.len() {
        assert(count_of(r, ins[j].0) >= 0);
        lemma_available_covers(tokens, r, ins, j + 1);
    }
}

proof fn lemma_fired_covered(
    tokens: Assoc<usize>,
    tb: Assoc<Assoc<usize>>,
    k: int,
    r: Assoc<usize>,
    acc: Seq<int>,
)
    requires
        0 <= k,
        forall|m: int| 0 <= m < acc.len() ==> covered_transition(tokens, tb, #[trigger] acc[m]),
        select_fired(tokens, tb, k, r, acc) is Some,
    ensures
        forall|m: int|
            0 <= m < select_fired(tokens, tb, k, r, acc)->0.len() ==> covered_transition(
                tokens,
                tb,
                #[trigger] select_fired(tokens, tb, k, r, acc)->0[m],
            ),
    decreases tb.len() - k,
{
    if k < tb.len() {
        match inputs_available(tokens, r, tb[k].1, 0) {
            Some(false) => {
                lemma_fired_covered(tokens, tb, k + 1, r, acc);
            },
            Some(true) => match reserve_inputs(r, tb[k].1, 0) {
                Some(r2) => {
                    lemma_available_covers(tokens, r, tb[k].1, 0);
                    assert(covered_transition(tokens, tb, k));
                    let acc2 = acc.push(k);
                    assert forall|m: int| 0 <= m < acc2.len() implies covered_transition(
                        tokens,
                        tb,
                        #[trigger] acc2[m],
                    ) by {
                        if m < acc.len() {
                            assert(acc2[m] == acc[m]);
                        }
                    }
                    lemma_fired_covered(tokens, tb, k + 1, r2, acc2);
                },
                None => {},
            },
            None => {},
        }
    }
}

proof fn lemma_consume_counts(
    t0: Assoc<usize>,
    t: Assoc<usize>,
    tb: Assoc<Assoc<usize>>,
    fired: Seq<int>,
    f: int,
    j: int,
)
    requires
        0 <= f,
        0 <= j,
        forall|m: int| 0 <= m < fired.len() ==> covered_transition(t0, tb, #[trigger] fired[m]),
        forall|p: Seq<char>| #[trigger] assoc_get(t, p) is None ==> assoc_get(t0, p) is None,
        consume(t, tb, fired, f, j) is Some,
    ensures
        forall|p: Seq<char>|
            #[trigger] count_of(consume(t, tb, fired, f, j)->0, p) == count_of(t, p) - (if f
                < fired.len() {
                in_weight(tb[fired[f]].1, p, j) + taken(tb, fired, p, f + 1)
            } else {
                0
            }),
    decreases fired.len() - f, tb[fired[f]].1.len() - j,
{
    if f >= fired.len() {
    } else if j >= tb[fired[f]].1.len() {
        lemma_consume_counts(t0, t, tb, fired, f + 1, 0);
        assert forall|p: Seq<char>| #[trigger]
            count_of(consume(t, tb, fired, f, j)->0, p) == count_of(t, p) - (in_weight(
                tb[fired[f]].1,
                p,
                j,
            ) + taken(tb, fired, p, f + 1)) by {
            assert(in_weight(tb[fired[f]].1, p, j) == 0);
            if f + 1 < fired.len() {
                assert(taken(tb, fired, p, f + 1) == in_weight(tb[fired[f + 1]].1, p, 0) + taken(
                    tb,
                    fired,
                    p,
                    f + 2,
                ));
            }
        }
    } else {
        let ins = tb[fired[f]].1;
        let inp = ins[j];
        assert(covered_transition(t0, tb, fired[f]));
        match assoc_get(t, inp.0) {
            None => {
                assert(assoc_get(t0, inp.0) is None);
                assert(count_of(t0, inp.0) >= inp.1);
                assert(inp.1 == 0);
                lemma_consume_counts(t0, t, tb, fired, f, j + 1);
            },
            Some(v) => {
                let t2 = assoc_set(t, inp.0, (v - inp.1) as usize);
                assert forall|p: Seq<char>| #[trigger] assoc_get(t2, p) is None implies assoc_get(
                    t0,
                    p,
                ) is None by {
                    lemma_assoc_set_get(t, inp.0, (v - inp.1) as usize, p);
                }
                lemma_consume_counts(t0, t2, tb, fired, f, j + 1);
                assert forall|p: Seq<char>| #[trigger]
                    count_of(consume(t, tb, fired, f, j)->0, p) == count_of(t, p) - (in_weight(
                        ins,
                        p,
                        j,
                    ) + taken(tb, fired, p, f + 1)) by {
                    lemma_assoc_set_get(t, inp.0, (v - inp.1) as usize, p);
                }
            },
        }
    }
}

proof fn lemma_produce_counts(
    t: Assoc<usize>,
    tb: Assoc<Assoc<usize>>,
    fired: Seq<int>,
    cs: Seq<Cmd>,
    f: int,
    c: int,
)
    requires
        0 <= f,
        0 <= c,
        produce(t, tb, fired, cs, f, c) is Some,
    ensures
        forall|p: Seq<char>|
            #[trigger] count_of(produce(t, tb, fired, cs, f, c)->0, p) == count_of(t, p) + (if f
                < fired.len() {
                out_weight(cs, tb[fired[f]].0, p, c) + given(tb, fired, cs, p, f + 1)
            } else {
                0
            }),
    decreases fired.len() - f, cs.len() - c,
{
    if f >= fired.len() {
    } else if c >= cs.len() {
        lemma_produce_counts(t, tb, fired, cs, f + 1, 0);
    } else {
        match cs[c] {
            Cmd::Connection { from, to, amount, from_transition, .. } => {
                if from_transition && from == tb[fired[f]].0 {
                    let total = count_of(t, to) + crate::text::parse_or_zero(amount);
                    let t2 = assoc_set(t, to, total as usize);
                    lemma_produce_counts(t2, tb, fired, cs, f, c + 1);
                    assert forall|p: Seq<char>| #[trigger]
                        count_of(produce(t, tb, fired, cs, f, c)->0, p) == count_of(t, p) + (
                        out_weight(cs, tb[fired[f]].0, p, c) + given(tb, fired, cs, p, f + 1)) by {
                        lemma_assoc_set_get(t, to, total as usize, p);
                    }
                } else {
                    lemma_produce_counts(t, tb, fired, cs, f, c + 1);
                }
            },
            _ => {
                lemma_produce_counts(t, tb, fired, cs, f, c + 1);
            },
        }
    }
}

/// One step moves tokens along the arcs of the transitions that fire: for
/// every place, the count after the step is the count before, minus the
/// weights of its arcs into the fired transitions, plus the weights of the
/// fired transitions' arcs into it.
pub proof fn law_step_moves_tokens(tokens: Assoc<usize>, tb: Assoc<Assoc<usize>>, cs: Seq<Cmd>)
    requires
        step(tokens, tb, cs) is Some,
    ensures
        forall|p: Seq<char>|
            #[trigger] count_of(step(tokens, tb, cs)->0, p) == count_of(tokens, p) - taken(
                tb,
                select_fired(tokens, tb, 0, Seq::empty(), Seq::empty())->0,
                p,
                0,
            ) + given(
                tb,
                select_fired(tokens, tb, 0, Seq::empty(), Seq::empty())->0,
                cs,
                p,
                0,
            ),
{
    let fired = select_fired(tokens, tb, 0, Seq::empty(), Seq::empty())->0;
    lemma_fired_covered(tokens, tb, 0, Seq::empty(), Seq::empty());
    lemma_consume_counts(tokens, tokens, tb, fired, 0, 0);
    let t1 = consume(tokens, tb, fired, 0, 0)->0;
    lemma_produce_counts(t1, tb, fired, cs, 0, 0);
    assert forall|p: Seq<char>| #[trigger]
        count_of(step(tokens, tb, cs)->0, p) == count_of(tokens, p) - taken(tb, fired, p, 0)
            + given(tb, fired, cs, p, 0) by {
        assert(count_of(t1, p) == count_of(tokens, p) - taken(tb, fired, p, 0));
    }
}

} // verus!
