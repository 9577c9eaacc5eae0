//! The simulator: fires the enabled transitions of a Petri net for a given
//! number of steps and writes the resulting token counts back into the
//! command list.
//!
//! Token counts and the inputs of each transition are kept in association
//! lists that remember the order in which their keys first appeared; the
//! transitions of a step are considered in the order in which they first
//! appear as the target of an arc.
use vstd::prelude::*;

use crate::command::{cmds_view, Cmd, PCommand, PCommands};
use crate::text::{parse_or_zero, parse_usize_str};

verus! {

/// An association list from names to values, in insertion order.
pub type Assoc<V> = Seq<(Seq<char>, V)>;

/// The index of the first entry of `m[i..]` with key `k`, or `-1`.
pub open spec fn key_index<V>(m: Assoc<V>, k: Seq<char>, i: int) -> int
    decreases m.len() - i,
{
    if i < 0 || i >= m.len() {
        -1
    } else if m[i].0 == k {
        i
    } else {
        key_index(m, k, i + 1)
    }
}

/// A found index is in range and holds the key; none before it does.
pub proof fn lemma_key_index<V>(m: Assoc<V>, k: Seq<char>, i: int)
    ensures
        key_index(m, k, i) >= 0 ==> (i <= key_index(m, k, i) < m.len() && m[key_index(
            m,
            k,
            i,
        )].0 == k),
        key_index(m, k, i) >= 0 ==> forall|j: int|
            i <= j < key_index(m, k, i) ==> #[trigger] m[j].0 != k,
        key_index(m, k, i) < 0 && 0 <= i ==> forall|j: int| i <= j < m.len() ==> #[trigger] m[j].0 != k,
    decreases m.len() - i,
{
    if 0 <= i < m.len() && m[i].0 != k {
        lemma_key_index(m, k, i + 1);
    }
}

/// The value stored under `k`, if any.
pub open spec fn assoc_get<V>(m: Assoc<V>, k: Seq<char>) -> Option<V> {
    let j = key_index(m, k, 0);
    if j >= 0 {
        Some(m[j].1)
    } else {
        None
    }
}

/// The count stored under `k`, or `0`.
pub open spec fn count_of(m: Assoc<usize>, k: Seq<char>) -> int {
    match assoc_get(m, k) {
        Some(v) => v as int,
        None => 0,
    }
}

/// `m` with `k` mapped to `v`: the entry is updated in place, or appended.
pub open spec fn assoc_set<V>(m: Assoc<V>, k: Seq<char>, v: V) -> Assoc<V> {
    let j = key_index(m, k, 0);
    if j >= 0 {
        m.update(j, (k, v))
    } else {
        m.push((k, v))
    }
}

/// The token counts that the `Token` commands of `cs[i..]` set on top of
/// `m`; a later command for the same place overrides an earlier one.
pub open spec fn initial_tokens(cs: Seq<Cmd>, i: int, m: Assoc<usize>) -> Assoc<usize>
    decreases cs.len() - i,
{
    if i < 0 || i >= cs.len() {
        m
    } else {
        match cs[i] {
            Cmd::Token(place, n) => initial_tokens(cs, i + 1, assoc_set(m, place, n)),
            _ => initial_tokens(cs, i + 1, m),
        }
    }
}

/// The inputs of each transition: for each arc into a transition, in
/// command order, the source place and the weight (`0` where the amount is
/// no number).
pub open spec fn input_table(cs: Seq<Cmd>, i: int, t: Assoc<Assoc<usize>>) -> Assoc<Assoc<usize>>
    decreases cs.len() - i,
{
    if i < 0 || i >= cs.len() {
        t
    } else {
        match cs[i] {
            Cmd::Connection { from, to, amount, to_transition, .. } => if to_transition {
                let ins = match assoc_get(t, to) {
                    Some(ins) => ins,
                    None => Seq::empty(),
                };
                input_table(cs, i + 1, assoc_set(t, to, ins.push((from, parse_or_zero(amount)))))
            } else {
                input_table(cs, i + 1, t)
            },
            _ => input_table(cs, i + 1, t),
        }
    }
}

/// Whether the inputs `ins[j..]` are all available: each needs its weight
/// on top of what is already reserved of its place. `None` where a sum
/// would exceed `usize::MAX`; the check stops at the first input that is
/// short.
pub open spec fn inputs_available(
    tokens: Assoc<usize>,
    reserved: Assoc<usize>,
    ins: Assoc<usize>,
    j: int,
) -> Option<bool>
    decreases ins.len() - j,
{
    if j < 0 || j >= ins.len() {
        Some(true)
    } else {
        let need = count_of(reserved, ins[j].0) + ins[j].1;
        if need > usize::MAX {
            None
        } else if count_of(tokens, ins[j].0) < need {
            Some(false)
        } else {
            inputs_available(tokens, reserved, ins, j + 1)
        }
    }
}

/// `reserved` with the weights of `ins[j..]` added; `None` on overflow.
pub open spec fn reserve_inputs(reserved: Assoc<usize>, ins: Assoc<usize>, j: int) -> Option<
    Assoc<usize>,
>
    decreases ins.len() - j,
{
    if j < 0 || j >= ins.len() {
        Some(reserved)
    } else {
        let total = count_of(reserved, ins[j].0) + ins[j].1;
        if total > usize::MAX {
            None
        } else {
            reserve_inputs(assoc_set(reserved, ins[j].0, total as usize), ins, j + 1)
        }
    }
}

/// The transitions of `table[k..]` that fire, appended to `fired`: a
/// transition fires when all its inputs are available next to what the
/// transitions before it reserved, and then reserves them.
pub open spec fn select_fired(
    tokens: Assoc<usize>,
    table: Assoc<Assoc<usize>>,
    k: int,
    reserved: Assoc<usize>,
    fired: Seq<int>,
) -> Option<Seq<int>>
    decreases table.len() - k,
{
    if k < 0 || k >= table.len() {
        Some(fired)
    } else {
        match inputs_available(tokens, reserved, table[k].1, 0) {
            None => None,
            Some(false) => select_fired(tokens, table, k + 1, reserved, fired),
            Some(true) => match reserve_inputs(reserved, table[k].1, 0) {
                None => None,
                Some(r) => select_fired(tokens, table, k + 1, r, fired.push(k)),
            },
        }
    }
}

/// The inputs of the fired transitions taken from the places that hold a
/// count, from the `j`-th input of the `f`-th fired transition on; `None`
/// where a count would go below zero.
pub open spec fn consume(
    tokens: Assoc<usize>,
    table: Assoc<Assoc<usize>>,
    fired: Seq<int>,
    f: int,
    j: int,
) -> Option<Assoc<usize>>
    decreases fired.len() - f, table[fired[f]].1.len() - j,
{
    if f < 0 || f >= fired.len() {
        Some(tokens)
    } else if j < 0 || j >= table[fired[f]].1.len() {
        consume(tokens, table, fired, f + 1, 0)
    } else {
        let inp = table[fired[f]].1[j];
        match assoc_get(tokens, inp.0) {
            None => consume(tokens, table, fired, f, j + 1),
            Some(t) => if t < inp.1 {
                None
            } else {
                consume(assoc_set(tokens, inp.0, (t - inp.1) as usize), table, fired, f, j + 1)
            },
        }
    }
}

/// The outputs of the fired transitions added to their places, from the
/// `c`-th command for the `f`-th fired transition on: each arc out of a
/// fired transition adds its weight; `None` on overflow.
pub open spec fn produce(
    tokens: Assoc<usize>,
    table: Assoc<Assoc<usize>>,
    fired: Seq<int>,
    cs: Seq<Cmd>,
    f: int,
    c: int,
) -> Option<Assoc<usize>>
    decreases fired.len() - f, cs.len() - c,
{
    if f < 0 || f >= fired.len() {
        Some(tokens)
    } else if c < 0 || c >= cs.len() {
        produce(tokens, table, fired, cs, f + 1, 0)
    } else {
        match cs[c] {
            Cmd::Connection { from, to, amount, from_transition, .. } => if from_transition && from
                == table[fired[f]].0 {
                let total = count_of(tokens, to) + parse_or_zero(amount);
                if total > usize::MAX {
                    None
                } else {
                    produce(assoc_set(tokens, to, total as usize), table, fired, cs, f, c + 1)
                }
            } else {
                produce(tokens, table, fired, cs, f, c + 1)
            },
            _ => produce(tokens, table, fired, cs, f, c + 1),
        }
    }
}

/// One step: select the transitions that fire, take their inputs, then
/// add their outputs. `None` where a count leaves the range of `usize`.
pub open spec fn step(tokens: Assoc<usize>, table: Assoc<Assoc<usize>>, cs: Seq<Cmd>) -> Option<
    Assoc<usize>,
> {
    match select_fired(tokens, table, 0, Seq::empty(), Seq::empty()) {
        None => None,
        Some(fired) => match consume(tokens, table, fired, 0, 0) {
            None => None,
            Some(t) => produce(t, table, fired, cs, 0, 0),
        },
    }
}

/// `n` steps from `tokens`.
pub open spec fn run_steps(
    tokens: Assoc<usize>,
    table: Assoc<Assoc<usize>>,
    cs: Seq<Cmd>,
    n: nat,
) -> Option<Assoc<usize>>
    decreases n,
{
    if n == 0 {
        Some(tokens)
    } else {
        match step(tokens, table, cs) {
            None => None,
            Some(t) => run_steps(t, table, cs, (n - 1) as nat),
        }
    }
}

/// The token counts after `n` steps of the net that `cs` describes.
pub open spec fn marking_after(cs: Seq<Cmd>, n: nat) -> Option<Assoc<usize>> {
    run_steps(initial_tokens(cs, 0, Seq::empty()), input_table(cs, 0, Seq::empty()), cs, n)
}

/// The commands `cs[i..]` appended to `acc`, each `Token` command carrying
/// the count of its place in `tokens`.
pub open spec fn update_tokens(cs: Seq<Cmd>, tokens: Assoc<usize>, i: int, acc: Seq<Cmd>) -> Seq<
    Cmd,
>
    decreases cs.len() - i,
{
    if i < 0 || i >= cs.len() {
        acc
    } else {
        match cs[i] {
            Cmd::Token(place, _) => match assoc_get(tokens, place) {
                Some(t) => update_tokens(cs, tokens, i + 1, acc.push(Cmd::Token(place, t))),
                None => update_tokens(cs, tokens, i + 1, acc),
            },
            _ => update_tokens(cs, tokens, i + 1, acc.push(cs[i])),
        }
    }
}

/// Whether some command of `cs` is a `Token` command for `place`.
pub open spec fn has_token_for(cs: Seq<Cmd>, place: Seq<char>) -> bool {
    exists|i: int| 0 <= i < cs.len() && (#[trigger] cs[i] matches Cmd::Token(p, _) && p == place)
}

/// `acc` followed by a `Token` command for each place of `tokens[j..]` that
/// no command of `existing` counts.
pub open spec fn add_missing_tokens(
    tokens: Assoc<usize>,
    existing: Seq<Cmd>,
    j: int,
    acc: Seq<Cmd>,
) -> Seq<Cmd>
    decreases tokens.len() - j,
{
    if j < 0 || j >= tokens.len() {
        acc
    } else if has_token_for(existing, tokens[j].0) {
        add_missing_tokens(tokens, existing, j + 1, acc)
    } else {
        add_missing_tokens(tokens, existing, j + 1, acc.push(Cmd::Token(tokens[j].0, tokens[j].1)))
    }
}

/// Whether `c` is a `Token` command with no tokens.
pub open spec fn is_empty_token(c: Cmd) -> bool {
    match c {
        Cmd::Token(_, n) => n == 0,
        _ => false,
    }
}

/// `acc` followed by the commands of `cs[i..]` that are not empty tokens.
pub open spec fn drop_empty_tokens(cs: Seq<Cmd>, i: int, acc: Seq<Cmd>) -> Seq<Cmd>
    decreases cs.len() - i,
{
    if i < 0 || i >= cs.len() {
        acc
    } else if is_empty_token(cs[i]) {
        drop_empty_tokens(cs, i + 1, acc)
    } else {
        drop_empty_tokens(cs, i + 1, acc.push(cs[i]))
    }
}

/// The command list `cs` rewritten for the counts `tokens`: token commands
/// updated, places that gained tokens without a command added at the end,
/// and token commands with no tokens dropped.
pub open spec fn render(cs: Seq<Cmd>, tokens: Assoc<usize>) -> Seq<Cmd> {
    let updated = update_tokens(cs, tokens, 0, Seq::empty());
    let all = add_missing_tokens(tokens, updated, 0, updated);
    drop_empty_tokens(all, 0, Seq::empty())
}

/// What `steps` gives for `cs` and `n`; `None` where a count would leave
/// the range of `usize` on the way.
pub open spec fn steps_spec(cs: Seq<Cmd>, n: nat) -> Option<Seq<Cmd>> {
    match marking_after(cs, n) {
        None => None,
        Some(t) => Some(render(cs, t)),
    }
}


/// The value of a list of token counts.
pub open spec fn counts_view(v: Seq<(String, usize)>) -> Assoc<usize> {
    v.map_values(|e: (String, usize)| (e.0@, e.1))
}

/// The value of a table of transition inputs.
pub open spec fn table_view(v: Seq<(String, Vec<(String, usize)>)>) -> Assoc<Assoc<usize>> {
    v.map_values(|e: (String, Vec<(String, usize)>)| (e.0@, counts_view(e.1@)))
}

fn find_count(m: &Vec<(String, usize)>, k: &String) -> (r: Option<usize>)
    ensures
        key_index(counts_view(m@), k@, 0) == (match r {
            Some(j) => j as int,
            None => -1,
        }),
        r is Some ==> r->0 < m.len(),
{
    let mut i: usize = 0;
    while i < m.len()
        invariant
            i <= m.len(),
            key_index(counts_view(m@), k@, i as int) == key_index(counts_view(m@), k@, 0),
        decreases m.len() - i,
    {
        if m[i].0 == *k {
            return Some(i);
        }
        i = i + 1;
    }
    None
}

/// The count stored under `k` in a list of counts, if any.
pub fn get_count(m: &Vec<(String, usize)>, k: &String) -> (r: Option<usize>)
    ensures
        r == assoc_get(counts_view(m@), k@),
{
    match find_count(m, k) {
        Some(j) => Some(m[j].1),
        None => None,
    }
}

fn count_or_zero(m: &Vec<(String, usize)>, k: &String) -> (r: usize)
    ensures
        r == count_of(counts_view(m@), k@),
{
    match get_count(m, k) {
        Some(v) => v,
        None => 0,
    }
}

fn set_count(m: &mut Vec<(String, usize)>, k: &String, v: usize)
    ensures
        counts_view(final(m)@) == assoc_set(counts_view(old(m)@), k@, v),
{
    match find_count(m, k) {
        Some(j) => {
            m.set(j, (k.clone(), v));
            assert(counts_view(m@) =~= counts_view(old(m)@).update(j as int, (k@, v)));
        },
        None => {
            m.push((k.clone(), v));
            assert(counts_view(m@) =~= counts_view(old(m)@).push((k@, v)));
        },
    }
}

fn find_entry(t: &Vec<(String, Vec<(String, usize)>)>, k: &String) -> (r: Option<usize>)
    ensures
        key_index(table_view(t@), k@, 0) == (match r {
            Some(j) => j as int,
            None => -1,
        }),
        r is Some ==> r->0 < t.len(),
{
    let mut i: usize = 0;
    while i < t.len()
        invariant
            i <= t.len(),
            key_index(table_view(t@), k@, i as int) == key_index(table_view(t@), k@, 0),
        decreases t.len() - i,
    {
        if t[i].0 == *k {
            return Some(i);
        }
        i = i + 1;
    }
    None
}

fn add_input(t: &mut Vec<(String, Vec<(String, usize)>)>, to: &String, from: String, cost: usize)
    ensures
        table_view(final(t)@) == assoc_set(
            table_view(old(t)@),
            to@,
            (match assoc_get(table_view(old(t)@), to@) {
                Some(ins) => ins,
                None => Seq::empty(),
            }).push((from@, cost)),
        ),
{
    match find_entry(t, to) {
        Some(j) => {
            proof {
                lemma_key_index(table_view(t@), to@, 0);
            }
            let mut entry = t.remove(j);
            entry.1.push((from, cost));
            assert(counts_view(entry.1@) =~= counts_view(old(t)@[j as int].1@).push((from@, cost)));
            t.insert(j, entry);
            assert(table_view(t@) =~= table_view(old(t)@).update(
                j as int,
                (to@, counts_view(old(t)@[j as int].1@).push((from@, cost))),
            ));
        },
        None => {
            let mut ins: Vec<(String, usize)> = Vec::new();
            ins.push((from, cost));
            assert(counts_view(ins@) =~= Seq::<(Seq<char>, usize)>::empty().push((from@, cost)));
            t.push((to.clone(), ins));
            assert(table_view(t@) =~= table_view(old(t)@).push(
                (to@, Seq::<(Seq<char>, usize)>::empty().push((from@, cost))),
            ));
        },
    }
}

fn initial_counts(cmds: &Vec<PCommand>) -> (r: Vec<(String, usize)>)
    ensures
        counts_view(r@) == initial_tokens(cmds_view(cmds@), 0, Seq::empty()),
{
    let mut m: Vec<(String, usize)> = Vec::new();
    let ghost cs = cmds_view(cmds@);
    let mut i: usize = 0;
    assert(counts_view(m@) =~= Seq::<(Seq<char>, usize)>::empty());
    while i < cmds.len()
        invariant
            i <= cmds.len(),
            cs == cmds_view(cmds@),
            initial_tokens(cs, i as int, counts_view(m@)) == initial_tokens(cs, 0, Seq::empty()),
        decreases cmds.len() - i,
    {
        match &cmds[i] {
            PCommand::Token(place, n) => {
                set_count(&mut m, place, *n);
            },
            _ => {},
        }
        i = i + 1;
    }
    m
}

fn inputs_of(cmds: &Vec<PCommand>) -> (r: Vec<(String, Vec<(String, usize)>)>)
    ensures
        table_view(r@) == input_table(cmds_view(cmds@), 0, Seq::empty()),
{
    let mut t: Vec<(String, Vec<(String, usize)>)> = Vec::new();
    let ghost cs = cmds_view(cmds@);
    let mut i: usize = 0;
    assert(table_view(t@) =~= Seq::<(Seq<char>, Assoc<usize>)>::empty());
    while i < cmds.len()
        invariant
            i <= cmds.len(),
            cs == cmds_view(cmds@),
            input_table(cs, i as int, table_view(t@)) == input_table(cs, 0, Seq::empty()),
        decreases cmds.len() - i,
    {
        match &cmds[i] {
            PCommand::Connection { from, to, amount, to_transition, .. } => {
                if *to_transition {
                    let cost = match parse_usize_str(amount.as_str()) {
                        Some(c) => c,
                        None => 0,
                    };
                    add_input(&mut t, to, from.clone(), cost);
                }
            },
            _ => {},
        }
        i = i + 1;
    }
    t
}


/// Indices as integers.
pub open spec fn as_ints(v: Seq<usize>) -> Seq<int> {
    v.map_values(|i: usize| i as int)
}

fn available(tokens: &Vec<(String, usize)>, reserved: &Vec<(String, usize)>, ins: &Vec<(String, usize)>) -> (r: Option<bool>)
    ensures
        r == inputs_available(counts_view(tokens@), counts_view(reserved@), counts_view(ins@), 0),
{
    let mut j: usize = 0;
    while j < ins.len()
        invariant
            j <= ins.len(),
            inputs_available(counts_view(tokens@), counts_view(reserved@), counts_view(ins@), j as int)
                == inputs_available(counts_view(tokens@), counts_view(reserved@), counts_view(ins@), 0),
        decreases ins.len() - j,
    {
        let res = count_or_zero(reserved, &ins[j].0);
        let need = match res.checked_add(ins[j].1) {
            None => {
                return None;
            },
            Some(x) => x,
        };
        if count_or_zero(tokens, &ins[j].0) < need {
            return Some(false);
        }
        j = j + 1;
    }
    Some(true)
}

fn reserve(reserved: &mut Vec<(String, usize)>, ins: &Vec<(String, usize)>) -> (ok: bool)
    ensures
        match reserve_inputs(counts_view(old(reserved)@), counts_view(ins@), 0) {
            Some(r) => ok && counts_view(final(reserved)@) == r,
            None => !ok,
        },
{
    let ghost start = counts_view(reserved@);
    let mut j: usize = 0;
    while j < ins.len()
        invariant
            j <= ins.len(),
            start == counts_view(old(reserved)@),
            reserve_inputs(counts_view(reserved@), counts_view(ins@), j as int) == reserve_inputs(
                start,
                counts_view(ins@),
                0,
            ),
        decreases ins.len() - j,
    {
        let cur = count_or_zero(reserved, &ins[j].0);
        let total = match cur.checked_add(ins[j].1) {
            None => {
                return false;
            },
            Some(x) => x,
        };
        set_count(reserved, &ins[j].0, total);
        j = j + 1;
    }
    true
}

/// Whether every index of `fired` points into a table of `n` entries.
pub open spec fn indices_below(fired: Seq<usize>, n: int) -> bool {
    forall|i: int| 0 <= i < fired.len() ==> #[trigger] fired[i] < n
}

fn select(tokens: &Vec<(String, usize)>, table: &Vec<(String, Vec<(String, usize)>)>) -> (r: Option<Vec<usize>>)
    ensures
        match select_fired(counts_view(tokens@), table_view(table@), 0, Seq::empty(), Seq::empty()) {
            Some(f) => r is Some && as_ints(r->0@) == f && indices_below(r->0@, table.len() as int),
            None => r is None,
        },
{
    let mut reserved: Vec<(String, usize)> = Vec::new();
    let mut fired: Vec<usize> = Vec::new();
    let ghost tv = table_view(table@);
    assert(counts_view(reserved@) =~= Seq::<(Seq<char>, usize)>::empty());
    assert(as_ints(fired@) =~= Seq::<int>::empty());
    let mut k: usize = 0;
    while k < table.len()
        invariant
            k <= table.len(),
            tv == table_view(table@),
            indices_below(fired@, table.len() as int),
            select_fired(counts_view(tokens@), tv, k as int, counts_view(reserved@), as_ints(fired@))
                == select_fired(counts_view(tokens@), tv, 0, Seq::empty(), Seq::empty()),
        decreases table.len() - k,
    {
        assert(tv[k as int].1 == counts_view(table@[k as int].1@));
        match available(tokens, &reserved, &table[k].1) {
            None => {
                return None;
            },
            Some(false) => {},
            Some(true) => {
                if !reserve(&mut reserved, &table[k].1) {
                    return None;
                }
                let ghost before = as_ints(fired@);
                fired.push(k);
                assert(as_ints(fired@) =~= before.push(k as int));
            },
        }
        k = k + 1;
    }
    Some(fired)
}

fn consume_inputs(tokens: &mut Vec<(String, usize)>, table: &Vec<(String, Vec<(String, usize)>)>, fired: &Vec<usize>) -> (ok: bool)
    requires
        indices_below(fired@, table.len() as int),
    ensures
        match consume(counts_view(old(tokens)@), table_view(table@), as_ints(fired@), 0, 0) {
            Some(t) => ok && counts_view(final(tokens)@) == t,
            None => !ok,
        },
{
    let ghost start = counts_view(tokens@);
    let ghost tv = table_view(table@);
    let ghost fs = as_ints(fired@);
    let mut f: usize = 0;
    while f < fired.len()
        invariant
            f <= fired.len(),
            start == counts_view(old(tokens)@),
            tv == table_view(table@),
            fs == as_ints(fired@),
            indices_below(fired@, table.len() as int),
            consume(counts_view(tokens@), tv, fs, f as int, 0) == consume(start, tv, fs, 0, 0),
        decreases fired.len() - f,
    {
        let t = fired[f];
        assert(t < table.len());
        assert(fs[f as int] == t as int);
        let ins = &table[t].1;
        assert(tv[t as int].1 == counts_view(ins@));
        let mut j: usize = 0;
        while j < ins.len()
            invariant
                j <= ins.len(),
                f < fired.len(),
                t < table.len(),
                start == counts_view(old(tokens)@),
                ins == &table@[t as int].1,
                tv == table_view(table@),
                fs == as_ints(fired@),
                fs[f as int] == t as int,
                tv[t as int].1 == counts_view(ins@),
                consume(counts_view(tokens@), tv, fs, f as int, j as int) == consume(
                    start,
                    tv,
                    fs,
                    0,
                    0,
                ),
            decreases ins.len() - j,
        {
            match get_count(tokens, &ins[j].0) {
                None => {},
                Some(have) => {
                    if have < ins[j].1 {
                        return false;
                    }
                    set_count(tokens, &ins[j].0, have - ins[j].1);
                },
            }
            j = j + 1;
        }
        f = f + 1;
    }
    true
}

fn produce_outputs(
    tokens: &mut Vec<(String, usize)>,
    table: &Vec<(String, Vec<(String, usize)>)>,
    fired: &Vec<usize>,
    cmds: &Vec<PCommand>,
) -> (ok: bool)
    requires
        indices_below(fired@, table.len() as int),
    ensures
        match produce(
            counts_view(old(tokens)@),
            table_view(table@),
            as_ints(fired@),
            cmds_view(cmds@),
            0,
            0,
        ) {
            Some(t) => ok && counts_view(final(tokens)@) == t,
            None => !ok,
        },
{
    let ghost start = counts_view(tokens@);
    let ghost tv = table_view(table@);
    let ghost fs = as_ints(fired@);
    let ghost cs = cmds_view(cmds@);
    let mut f: usize = 0;
    while f < fired.len()
        invariant
            f <= fired.len(),
            start == counts_view(old(tokens)@),
            tv == table_view(table@),
            fs == as_ints(fired@),
            cs == cmds_view(cmds@),
            indices_below(fired@, table.len() as int),
            produce(counts_view(tokens@), tv, fs, cs, f as int, 0) == produce(start, tv, fs, cs, 0, 0),
        decreases fired.len() - f,
    {
        let t = fired[f];
        assert(t < table.len());
        let name = &table[t].0;
        assert(fs[f as int] == t as int);
        assert(tv[t as int].0 == name@);
        let mut c: usize = 0;
        while c < cmds.len()
            invariant
                c <= cmds.len(),
                f < fired.len(),
                t < table.len(),
                start == counts_view(old(tokens)@),
                name == &table@[t as int].0,
                tv == table_view(table@),
                fs == as_ints(fired@),
                cs == cmds_view(cmds@),
                fs[f as int] == t as int,
                tv[t as int].0 == name@,
                produce(counts_view(tokens@), tv, fs, cs, f as int, c as int) == produce(
                    start,
                    tv,
                    fs,
                    cs,
                    0,
                    0,
                ),
            decreases cmds.len() - c,
        {
            match &cmds[c] {
                PCommand::Connection { from, to, amount, from_transition, .. } => {
                    if *from_transition && *from == *name {
                        let cur = count_or_zero(tokens, to);
                        let add = match parse_usize_str(amount.as_str()) {
                            Some(x) => x,
                            None => 0,
                        };
                        match cur.checked_add(add) {
                            None => {
                                return false;
                            },
                            Some(total) => {
                                set_count(tokens, to, total);
                            },
                        }
                    }
                },
                _ => {},
            }
            c = c + 1;
        }
        f = f + 1;
    }
    true
}

fn step_once(tokens: &mut Vec<(String, usize)>, table: &Vec<(String, Vec<(String, usize)>)>, cmds: &Vec<PCommand>) -> (ok: bool)
    ensures
        match step(counts_view(old(tokens)@), table_view(table@), cmds_view(cmds@)) {
            Some(t) => ok && counts_view(final(tokens)@) == t,
            None => !ok,
        },
{
    let fired = match select(tokens, table) {
        None => {
            return false;
        },
        Some(f) => f,
    };
    if !consume_inputs(tokens, table, &fired) {
        return false;
    }
    produce_outputs(tokens, table, &fired, cmds)
}


/// A copy of a command.
pub fn copy_command(c: &PCommand) -> (r: PCommand)
    ensures
        r@ == c@,
{
    match c {
        PCommand::Connection { from, to, amount, to_transition, from_transition } => {
            PCommand::Connection {
                from: from.clone(),
                to: to.clone(),
                amount: amount.clone(),
                to_transition: *to_transition,
                from_transition: *from_transition,
            }
        },
        PCommand::Token(place, n) => PCommand::Token(place.clone(), *n),
    }
}

fn updated_commands(cmds: &Vec<PCommand>, tokens: &Vec<(String, usize)>) -> (r: Vec<PCommand>)
    ensures
        cmds_view(r@) == update_tokens(cmds_view(cmds@), counts_view(tokens@), 0, Seq::empty()),
{
    let ghost cs = cmds_view(cmds@);
    let ghost tv = counts_view(tokens@);
    let mut r: Vec<PCommand> = Vec::new();
    assert(cmds_view(r@) =~= Seq::<Cmd>::empty());
    let mut i: usize = 0;
    while i < cmds.len()
        invariant
            i <= cmds.len(),
            cs == cmds_view(cmds@),
            tv == counts_view(tokens@),
            update_tokens(cs, tv, i as int, cmds_view(r@)) == update_tokens(cs, tv, 0, Seq::empty()),
        decreases cmds.len() - i,
    {
        let ghost before = cmds_view(r@);
        match &cmds[i] {
            PCommand::Token(place, _) => {
                match get_count(tokens, place) {
                    Some(t) => {
                        r.push(PCommand::Token(place.clone(), t));
                        assert(cmds_view(r@) =~= before.push(Cmd::Token(place@, t)));
                    },
                    None => {},
                }
            },
            other => {
                r.push(copy_command(other));
                assert(cmds_view(r@) =~= before.push(cs[i as int]));
            },
        }
        i = i + 1;
    }
    r
}

fn has_token_cmd(cmds: &Vec<PCommand>, upto: usize, place: &String) -> (r: bool)
    requires
        upto <= cmds.len(),
    ensures
        r == has_token_for(cmds_view(cmds@.take(upto as int)), place@),
{
    let ghost cs = cmds_view(cmds@.take(upto as int));
    let mut i: usize = 0;
    while i < upto
        invariant
            i <= upto <= cmds.len(),
            cs == cmds_view(cmds@.take(upto as int)),
            forall|k: int|
                0 <= k < i ==> !(#[trigger] cs[k] matches Cmd::Token(p, _) && p == place@),
        decreases upto - i,
    {
        match &cmds[i] {
            PCommand::Token(p, _) => {
                if *p == *place {
                    assert(cs[i as int] matches Cmd::Token(q, _) && q == place@);
                    return true;
                }
            },
            _ => {},
        }
        assert(!(cs[i as int] matches Cmd::Token(q, _) && q == place@));
        i = i + 1;
    }
    false
}

fn is_empty_token_cmd(c: &PCommand) -> (r: bool)
    ensures
        r == is_empty_token(c@),
{
    match c {
        PCommand::Token(_, n) => *n == 0,
        _ => false,
    }
}

fn render_commands(cmds: &Vec<PCommand>, tokens: &Vec<(String, usize)>) -> (r: Vec<PCommand>)
    ensures
        cmds_view(r@) == render(cmds_view(cmds@), counts_view(tokens@)),
{
    let mut all = updated_commands(cmds, tokens);
    let base = all.len();
    let ghost upd = cmds_view(all@);
    let ghost tv = counts_view(tokens@);
    assert(all@.take(base as int) == all@);
    let mut j: usize = 0;
    while j < tokens.len()
        invariant
            j <= tokens.len(),
            base <= all.len(),
            tv == counts_view(tokens@),
            cmds_view(all@.take(base as int)) == upd,
            add_missing_tokens(tv, upd, j as int, cmds_view(all@)) == add_missing_tokens(
                tv,
                upd,
                0,
                upd,
            ),
        decreases tokens.len() - j,
    {
        if !has_token_cmd(&all, base, &tokens[j].0) {
            let ghost before = all@;
            all.push(PCommand::Token(tokens[j].0.clone(), tokens[j].1));
            assert(all@.take(base as int) =~= before.take(base as int));
            assert(cmds_view(all@) =~= cmds_view(before).push(Cmd::Token(tv[j as int].0, tv[j as int].1)));
        }
        j = j + 1;
    }
    let ghost everything = cmds_view(all@);
    let mut r: Vec<PCommand> = Vec::new();
    assert(cmds_view(r@) =~= Seq::<Cmd>::empty());
    let mut i: usize = 0;
    while i < all.len()
        invariant
            i <= all.len(),
            everything == cmds_view(all@),
            drop_empty_tokens(everything, i as int, cmds_view(r@)) == drop_empty_tokens(
                everything,
                0,
                Seq::empty(),
            ),
        decreases all.len() - i,
    {
        if !is_empty_token_cmd(&all[i]) {
            let ghost before = cmds_view(r@);
            r.push(copy_command(&all[i]));
            assert(cmds_view(r@) =~= before.push(everything[i as int]));
        }
        i = i + 1;
    }
    r
}

/// Runs `count` steps of the net and writes the resulting counts back into
/// the command list (see [`render`]); `None` where a count would leave the
/// range of `usize` on the way.
pub fn try_steps(pcmds: &PCommands, count: usize) -> (r: Option<PCommands>)
    ensures
        match steps_spec(pcmds@, count as nat) {
            Some(cs) => r is Some && r->0@ == cs,
            None => r is None,
        },
{
    let cmds = &pcmds.0;
    let mut tokens = initial_counts(cmds);
    let table = inputs_of(cmds);
    let ghost cs = cmds_view(cmds@);
    let ghost tv = table_view(table@);
    let mut k: usize = 0;
    while k < count
        invariant
            k <= count,
            cs == cmds_view(cmds@),
            tv == table_view(table@),
            cs == pcmds@,
            tv == input_table(cs, 0, Seq::empty()),
            run_steps(counts_view(tokens@), tv, cs, (count - k) as nat) == marking_after(
                cs,
                count as nat,
            ),
        decreases count - k,
    {
        if !step_once(&mut tokens, &table, cmds) {
            return None;
        }
        k = k + 1;
    }
    Some(PCommands(render_commands(cmds, &tokens)))
}

/// Runs `count` steps of the net that `pcmds` describes and returns the
/// command list with the resulting token counts (see [`steps_spec`]).
pub fn steps(pcmds: PCommands, count: usize) -> (r: PCommands)
    requires
        steps_spec(pcmds@, count as nat) is Some,
    ensures
        r@ == steps_spec(pcmds@, count as nat)->0,
{
    match try_steps(&pcmds, count) {
        Some(r) => r,
        None => vstd::pervasive::unreached(),
    }
}


/// One more step after `k` steps is a step from the marking after `k`.
pub proof fn lemma_run_steps_succ(
    tokens: Assoc<usize>,
    table: Assoc<Assoc<usize>>,
    cs: Seq<Cmd>,
    k: nat,
)
    ensures
        run_steps(tokens, table, cs, k + 1) == (match run_steps(tokens, table, cs, k) {
            None => None,
            Some(t) => step(t, table, cs),
        }),
    decreases k,
{
    reveal_with_fuel(run_steps, 2);
    if k > 0 {
        match step(tokens, table, cs) {
            None => {},
            Some(t) => {
                lemma_run_steps_succ(t, table, cs, (k - 1) as nat);
            },
        }
    }
}

/// A copy of a list of counts.
pub fn copy_counts(v: &Vec<(String, usize)>) -> (r: Vec<(String, usize)>)
    ensures
        counts_view(r@) == counts_view(v@),
{
    let mut r: Vec<(String, usize)> = Vec::new();
    let mut i: usize = 0;
    while i < v.len()
        invariant
            i <= v.len(),
            counts_view(r@) == counts_view(v@.take(i as int)),
        decreases v.len() - i,
    {
        let ghost before = counts_view(r@);
        r.push((v[i].0.clone(), v[i].1));
        assert(counts_view(r@) =~= before.push(counts_view(v@)[i as int]));
        assert(counts_view(v@.take(i + 1)) =~= counts_view(v@.take(i as int)).push(
            counts_view(v@)[i as int],
        ));
        i = i + 1;
    }
    assert(v@.take(i as int) == v@);
    r
}

/// Whether `trace[k]` holds the counts after `k` steps.
pub open spec fn trace_entry(trace: Seq<Vec<(String, usize)>>, cs: Seq<Cmd>, k: int) -> bool {
    marking_after(cs, k as nat) is Some && counts_view(trace[k]@) == marking_after(cs, k as nat)->0
}

/// Whether `trace` holds the counts after `0`, `1`, ..., `n` steps.
pub open spec fn is_trace(trace: Seq<Vec<(String, usize)>>, cs: Seq<Cmd>, n: nat) -> bool {
    &&& trace.len() == n + 1
    &&& forall|k: int| 0 <= k <= n ==> #[trigger] trace_entry(trace, cs, k)
}

/// The token counts before the first step and after each of `count`
/// steps; `None` where a count would leave the range of `usize`.
pub fn marking_trace(pcmds: &PCommands, count: usize) -> (r: Option<Vec<Vec<(String, usize)>>>)
    ensures
        match marking_after(pcmds@, count as nat) {
            Some(_) => r is Some && is_trace(r->0@, pcmds@, count as nat),
            None => r is None,
        },
{
    let cmds = &pcmds.0;
    let mut tokens = initial_counts(cmds);
    let table = inputs_of(cmds);
    let ghost cs = cmds_view(cmds@);
    let ghost tv = table_view(table@);
    let ghost t0 = counts_view(tokens@);
    let mut trace: Vec<Vec<(String, usize)>> = Vec::new();
    trace.push(copy_counts(&tokens));
    let mut k: usize = 0;
    while k < count
        invariant
            k <= count,
            cs == cmds_view(cmds@),
            cs == pcmds@,
            tv == table_view(table@),
            tv == input_table(cs, 0, Seq::empty()),
            t0 == initial_tokens(cs, 0, Seq::empty()),
            run_steps(counts_view(tokens@), tv, cs, (count - k) as nat) == marking_after(
                cs,
                count as nat,
            ),
            marking_after(cs, k as nat) == Some(counts_view(tokens@)),
            is_trace(trace@, cs, k as nat),
        decreases count - k,
    {
        let ghost before = counts_view(tokens@);
        if !step_once(&mut tokens, &table, cmds) {
            return None;
        }
        proof {
            lemma_run_steps_succ(t0, tv, cs, k as nat);
        }
        assert(marking_after(cs, (k + 1) as nat) == Some(counts_view(tokens@)));
        let ghost old_trace = trace@;
        trace.push(copy_counts(&tokens));
        k = k + 1;
        assert(counts_view(trace@[k as int]@) == counts_view(tokens@));
        assert forall|j: int| 0 <= j <= k implies #[trigger] trace_entry(trace@, cs, j) by {
            if j < k {
                assert(trace@[j] == old_trace[j]);
                assert(trace_entry(old_trace, cs, j));
            }
        }
        assert(trace@.len() == k + 1);
        assert(is_trace(trace@, cs, k as nat));
    }
    Some(trace)
}

} // verus!
