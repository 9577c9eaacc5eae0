//! The textual form of arcs parses back to the same arcs.
use vstd::prelude::*;

use crate::command::{command_text, commands_text, Cmd};
use crate::parser::{
    check_syntax_spec, command_spec, connection_spec, extract_amount_spec, extract_transition_spec,
    last_open_before, parse_pieces, parse_spec, separate_spec, split_on,
};
use crate::text::{
    arrow_at, first_arrow, has_arrow, has_char, is_white, lemma_trimmed_ends, trim, trim_end,
    trim_start,
};

verus! {

/// A name or weight that the text form carries unchanged: non-empty, with
/// no whitespace at its ends, and holding none of `; [ ] ( ) *` nor `"->"`.
pub open spec fn plain(s: Seq<char>) -> bool {
    &&& s.len() > 0
    &&& trim(s) == s
    &&& !has_char(s, ';')
    &&& !has_char(s, '[')
    &&& !has_char(s, ']')
    &&& !has_char(s, '(')
    &&& !has_char(s, ')')
    &&& !has_char(s, '*')
    &&& !has_arrow(s)
}

/// An arc with exactly one end a transition, whose names and weight are
/// plain.
pub open spec fn plain_arc(c: Cmd) -> bool {
    match c {
        Cmd::Connection { from, to, amount, to_transition, from_transition } => to_transition
            != from_transition && plain(from) && plain(to) && plain(amount),
        _ => false,
    }
}

/// The text of an arc without its closing `';'`.
pub open spec fn arc_body(c: Cmd) -> Seq<char> {
    match c {
        Cmd::Connection { from, to, amount, to_transition, .. } => if to_transition {
            from + seq![' ', '-', '>', ' ', '['] + to + seq![']', ' ', '('] + amount + seq![')']
        } else {
            seq!['['] + from + seq![']', ' ', '-', '>', ' '] + to + seq![' ', '('] + amount + seq![
                ')',
            ]
        },
        _ => Seq::empty(),
    }
}

proof fn lemma_arc_text(c: Cmd)
    requires
        plain_arc(c),
    ensures
        command_text(c) == arc_body(c).push(';'),
{
    reveal_strlit(" -> [");
    reveal_strlit("] (");
    reveal_strlit(");");
    reveal_strlit("[");
    reveal_strlit("] -> ");
    reveal_strlit(" (");
    assert(" -> ["@ =~= seq![' ', '-', '>', ' ', '[']);
    assert("] ("@ =~= seq![']', ' ', '(']);
    assert(");"@ =~= seq![')', ';']);
    assert("["@ =~= seq!['[']);
    assert("] -> "@ =~= seq![']', ' ', '-', '>', ' ']);
    assert(" ("@ =~= seq![' ', '(']);
    match c {
        Cmd::Connection { from, to, amount, to_transition, .. } => {
            if to_transition {
                assert(command_text(c) =~= arc_body(c).push(';'));
            } else {
                assert(command_text(c) =~= arc_body(c).push(';'));
            }
        },
        _ => {},
    }
}

/// Dropping whitespace in front.
pub(crate) proof fn lemma_trim_start_white(w: Seq<char>, s: Seq<char>)
    requires
        forall|j: int| 0 <= j < w.len() ==> is_white(#[trigger] w[j]),
    ensures
        trim_start(w + s) == trim_start(s),
    decreases w.len(),
{
    if w.len() > 0 {
        assert((w + s).drop_first() == w.drop_first() + s);
        assert((w + s)[0] == w[0]);
        lemma_trim_start_white(w.drop_first(), s);
    } else {
        assert(w + s == s);
    }
}

/// Dropping whitespace behind.
pub(crate) proof fn lemma_trim_end_white(s: Seq<char>, w: Seq<char>)
    requires
        forall|j: int| 0 <= j < w.len() ==> is_white(#[trigger] w[j]),
    ensures
        trim_end(s + w) == trim_end(s),
    decreases w.len(),
{
    if w.len() > 0 {
        assert((s + w).drop_last() == s + w.drop_last());
        assert((s + w).last() == w.last());
        lemma_trim_end_white(s, w.drop_last());
    } else {
        assert(s + w == s);
    }
}

/// Whitespace around a text with non-white ends is trimmed away.
pub(crate) proof fn lemma_trim_around(w1: Seq<char>, s: Seq<char>, w2: Seq<char>)
    requires
        s.len() > 0,
        !is_white(s[0]),
        !is_white(s.last()),
        forall|j: int| 0 <= j < w1.len() ==> is_white(#[trigger] w1[j]),
        forall|j: int| 0 <= j < w2.len() ==> is_white(#[trigger] w2[j]),
    ensures
        trim(w1 + s + w2) == s,
{
    lemma_trim_start_white(w1, s + w2);
    assert(w1 + s + w2 == w1 + (s + w2));
    assert((s + w2)[0] == s[0]);
    assert(trim_start(s + w2) == s + w2);
    lemma_trim_end_white(s, w2);
}

/// The last `'('` of `x + "(" + y` where `y` holds none.
proof fn lemma_last_open(x: Seq<char>, y: Seq<char>, j: int)
    requires
        0 <= j <= y.len(),
        forall|k: int| 0 <= k < y.len() ==> #[trigger] y[k] != '(',
    ensures
        last_open_before(x + seq!['('] + y, x.len() + 1 + j) == x.len(),
    decreases j,
{
    let t = x + seq!['('] + y;
    if j > 0 {
        assert(t[x.len() + 1 + j - 1] == y[j - 1]);
        lemma_last_open(x, y, j - 1);
    } else {
        assert(t[x.len() as int] == '(');
    }
}

/// The first `"->"` of `s` is at `i` when none starts before it.
proof fn lemma_first_arrow_at(s: Seq<char>, i: int)
    requires
        arrow_at(s, i),
        forall|k: int| 0 <= k < i ==> !#[trigger] arrow_at(s, k),
    ensures
        first_arrow(s) == Some(i),
{
    reveal(first_arrow);
    let k = choose|k: int| arrow_at(s, k) && forall|j: int| 0 <= j < k ==> !arrow_at(s, j);
    if k < i {
        assert(!arrow_at(s, k));
    } else if k > i {
        assert(!arrow_at(s, i));
    }
}

/// A character of a plain text is not one that the text form uses.
proof fn lemma_plain_char(s: Seq<char>, k: int)
    requires
        plain(s),
        0 <= k < s.len(),
    ensures
        s[k] != ';',
        s[k] != '[',
        s[k] != ']',
        s[k] != '(',
        s[k] != ')',
        s[k] != '*',
        k + 1 < s.len() ==> !arrow_at(s, k),
{
}


proof fn lemma_all_white_space()
    ensures
        forall|j: int| 0 <= j < seq![' '].len() ==> is_white(#[trigger] seq![' '][j]),
        forall|j: int| 0 <= j < Seq::<char>::empty().len() ==> is_white(
            #[trigger] Seq::<char>::empty()[j],
        ),
{
}

proof fn lemma_parse_arc_into(from: Seq<char>, to: Seq<char>, amount: Seq<char>)
    requires
        plain(from),
        plain(to),
        plain(amount),
    ensures
        command_spec(
            arc_body(
                Cmd::Connection { from, to, amount, to_transition: true, from_transition: false },
            ),
        ) == Ok::<Cmd, Seq<char>>(
            Cmd::Connection { from, to, amount, to_transition: true, from_transition: false },
        ),
{
    reveal(connection_spec);
    let c = Cmd::Connection { from, to, amount, to_transition: true, from_transition: false };
    let body = arc_body(c);
    let f = from.len() as int;
    let sp: Seq<char> = seq![' '];
    let none: Seq<char> = Seq::empty();
    lemma_all_white_space();
    lemma_trimmed_ends(from);
    lemma_trimmed_ends(to);
    lemma_trimmed_ends(amount);
    assert(body[f + 1] == '-' && body[f + 2] == '>');
    assert forall|k: int| 0 <= k < f + 1 implies !#[trigger] arrow_at(body, k) by {
        if k + 1 < f {
            assert(body[k] == from[k] && body[k + 1] == from[k + 1]);
            lemma_plain_char(from, k);
        } else {
            assert(body[f] == ' ');
        }
    }
    lemma_first_arrow_at(body, f + 1);
    let a = body.take(f + 1);
    assert(a =~= from + sp);
    assert(!has_char(a, '[')) by {
        assert forall|k: int| 0 <= k < a.len() implies a[k] != '[' by {
            if k < f {
                lemma_plain_char(from, k);
            }
        }
    }
    lemma_trim_around(none, from, sp);
    assert(none + from + sp == a);
    let x = seq!['['] + to + seq![']', ' '];
    let y = amount + seq![')'];
    let inner = x + seq!['('] + y;
    let rest = body.skip(f + 3);
    assert(rest =~= sp + inner + none);
    assert(inner[0] == '[');
    assert(inner.last() == ')');
    lemma_trim_around(sp, inner, none);
    assert forall|k: int| 0 <= k < y.len() implies #[trigger] y[k] != '(' by {
        if k < amount.len() {
            lemma_plain_char(amount, k);
        }
    }
    lemma_last_open(x, y, y.len() as int);
    assert(inner.take(x.len() as int) =~= x);
    assert(inner.skip(x.len() as int + 1) =~= y);
    assert(separate_spec(rest, body) == Ok::<(Seq<char>, Seq<char>), Seq<char>>((x, y)));
    let bracketed = seq!['['] + to + seq![']'];
    assert(x == bracketed + sp);
    assert(bracketed.last() == ']');
    lemma_trim_around(none, bracketed, sp);
    assert(none + bracketed + sp == x);
    assert(bracketed.subrange(1, bracketed.len() - 1) =~= to);
    assert(extract_transition_spec(x, body) == Ok::<Seq<char>, Seq<char>>(to));
    assert(y.drop_last() =~= amount);
    assert(extract_amount_spec(y, body) == Ok::<Seq<char>, Seq<char>>(amount));
    assert(check_syntax_spec(to, amount, body) == Ok::<(), Seq<char>>(()));
}

proof fn lemma_parse_arc_out(from: Seq<char>, to: Seq<char>, amount: Seq<char>)
    requires
        plain(from),
        plain(to),
        plain(amount),
    ensures
        command_spec(
            arc_body(
                Cmd::Connection { from, to, amount, to_transition: false, from_transition: true },
            ),
        ) == Ok::<Cmd, Seq<char>>(
            Cmd::Connection { from, to, amount, to_transition: false, from_transition: true },
        ),
{
    reveal(connection_spec);
    let c = Cmd::Connection { from, to, amount, to_transition: false, from_transition: true };
    let body = arc_body(c);
    let f = from.len() as int;
    let sp: Seq<char> = seq![' '];
    let none: Seq<char> = Seq::empty();
    lemma_all_white_space();
    lemma_trimmed_ends(from);
    lemma_trimmed_ends(to);
    lemma_trimmed_ends(amount);
    assert(body[f + 3] == '-' && body[f + 4] == '>');
    assert forall|k: int| 0 <= k < f + 3 implies !#[trigger] arrow_at(body, k) by {
        if 1 <= k < f {
            assert(body[k] == from[k - 1] && body[k + 1] == from[k]);
            lemma_plain_char(from, k - 1);
        } else if k == f {
            assert(body[f + 1] == ']');
        } else if k == 0 {
            assert(body[0] == '[');
        } else if k == f + 1 {
            assert(body[f + 1] == ']');
        } else {
            assert(body[f + 2] == ' ');
        }
    }
    lemma_first_arrow_at(body, f + 3);
    let bracketed = seq!['['] + from + seq![']'];
    let a = body.take(f + 3);
    assert(a =~= none + bracketed + sp);
    assert(a[0] == '[');
    assert(has_char(a, '['));
    assert(bracketed.last() == ']');
    lemma_trim_around(none, bracketed, sp);
    assert(bracketed.subrange(1, bracketed.len() - 1) =~= from);
    assert(extract_transition_spec(a, body) == Ok::<Seq<char>, Seq<char>>(from));
    let x = to + sp;
    let y = amount + seq![')'];
    let inner = x + seq!['('] + y;
    let rest = body.skip(f + 5);
    assert(rest =~= sp + inner + none);
    assert(inner[0] == to[0]);
    assert(inner.last() == ')');
    lemma_trim_around(sp, inner, none);
    assert forall|k: int| 0 <= k < y.len() implies #[trigger] y[k] != '(' by {
        if k < amount.len() {
            lemma_plain_char(amount, k);
        }
    }
    lemma_last_open(x, y, y.len() as int);
    assert(inner.take(x.len() as int) =~= x);
    assert(inner.skip(x.len() as int + 1) =~= y);
    assert(separate_spec(rest, body) == Ok::<(Seq<char>, Seq<char>), Seq<char>>((x, y)));
    assert(y.drop_last() =~= amount);
    assert(extract_amount_spec(y, body) == Ok::<Seq<char>, Seq<char>>(amount));
    lemma_trim_around(none, to, sp);
    assert(none + to + sp == x);
    assert(check_syntax_spec(to, amount, body) == Ok::<(), Seq<char>>(()));
}

proof fn lemma_parse_arc(c: Cmd)
    requires
        plain_arc(c),
    ensures
        command_spec(arc_body(c)) == Ok::<Cmd, Seq<char>>(c),
{
    match c {
        Cmd::Connection { from, to, amount, to_transition, from_transition } => {
            if to_transition {
                lemma_parse_arc_into(from, to, amount);
            } else {
                lemma_parse_arc_out(from, to, amount);
            }
        },
        _ => {},
    }
}


pub(crate) proof fn lemma_has_char_concat(a: Seq<char>, b: Seq<char>, c: char)
    ensures
        has_char(a + b, c) <==> has_char(a, c) || has_char(b, c),
{
    if has_char(a + b, c) {
        let i = choose|i: int| 0 <= i < (a + b).len() && (a + b)[i] == c;
        if i < a.len() {
            assert(a[i] == c);
        } else {
            assert(b[i - a.len()] == c);
        }
    }
    if has_char(a, c) {
        let i = choose|i: int| 0 <= i < a.len() && a[i] == c;
        assert((a + b)[i] == c);
    }
    if has_char(b, c) {
        let i = choose|i: int| 0 <= i < b.len() && b[i] == c;
        assert((a + b)[a.len() + i] == c);
    }
}

proof fn lemma_body_facts(c: Cmd)
    requires
        plain_arc(c),
    ensures
        !has_char(arc_body(c), ';'),
        arc_body(c).len() > 0,
        !is_white(arc_body(c)[0]),
        arc_body(c).last() == ')',
{
    match c {
        Cmd::Connection { from, to, amount, to_transition, .. } => {
            lemma_trimmed_ends(from);
            if to_transition {
                let p1: Seq<char> = seq![' ', '-', '>', ' ', '['];
                let p2: Seq<char> = seq![']', ' ', '('];
                let p3: Seq<char> = seq![')'];
                assert(!has_char(p1, ';'));
                assert(!has_char(p2, ';'));
                assert(!has_char(p3, ';'));
                lemma_has_char_concat(from, p1, ';');
                lemma_has_char_concat(from + p1, to, ';');
                lemma_has_char_concat(from + p1 + to, p2, ';');
                lemma_has_char_concat(from + p1 + to + p2, amount, ';');
                lemma_has_char_concat(from + p1 + to + p2 + amount, p3, ';');
                assert(arc_body(c)[0] == from[0]);
            } else {
                let p0: Seq<char> = seq!['['];
                let p1: Seq<char> = seq![']', ' ', '-', '>', ' '];
                let p2: Seq<char> = seq![' ', '('];
                let p3: Seq<char> = seq![')'];
                assert(!has_char(p0, ';'));
                assert(!has_char(p1, ';'));
                assert(!has_char(p2, ';'));
                assert(!has_char(p3, ';'));
                lemma_has_char_concat(p0, from, ';');
                lemma_has_char_concat(p0 + from, p1, ';');
                lemma_has_char_concat(p0 + from + p1, to, ';');
                lemma_has_char_concat(p0 + from + p1 + to, p2, ';');
                lemma_has_char_concat(p0 + from + p1 + to + p2, amount, ';');
                lemma_has_char_concat(p0 + from + p1 + to + p2 + amount, p3, ';');
                assert(arc_body(c)[0] == '[');
            }
        },
        _ => {},
    }
}

pub(crate) proof fn lemma_split_nonempty(s: Seq<char>, sep: char)
    ensures
        split_on(s, sep).len() >= 1,
    decreases s.len(),
{
    if s.len() > 0 {
        lemma_split_nonempty(s.drop_last(), sep);
    }
}

/// Appending text without separators extends the last piece.
pub(crate) proof fn lemma_split_append(a: Seq<char>, b: Seq<char>, sep: char)
    requires
        !has_char(b, sep),
    ensures
        split_on(a + b, sep) == split_on(a, sep).update(
            split_on(a, sep).len() - 1,
            split_on(a, sep).last() + b,
        ),
    decreases b.len(),
{
    lemma_split_nonempty(a, sep);
    if b.len() == 0 {
        assert(a + b == a);
        assert(split_on(a, sep).last() + b == split_on(a, sep).last());
        assert(split_on(a, sep).update(split_on(a, sep).len() - 1, split_on(a, sep).last())
            =~= split_on(a, sep));
    } else {
        let b0 = b.drop_last();
        assert(!has_char(b0, sep)) by {
            if has_char(b0, sep) {
                let i = choose|i: int| 0 <= i < b0.len() && b0[i] == sep;
                assert(b[i] == sep);
            }
        }
        assert(b.last() != sep) by {
            assert(b[b.len() - 1] == b.last());
        }
        lemma_split_append(a, b0, sep);
        lemma_split_nonempty(a + b0, sep);
        assert((a + b).drop_last() == a + b0);
        assert((a + b).last() == b.last());
        assert(split_on(a, sep).last() + b0 + seq![b.last()] =~= split_on(a, sep).last() + b);
        let p = split_on(a + b0, sep);
        assert(split_on(a + b, sep) == p.update(p.len() - 1, p.last().push(b.last())));
        assert(p.last() == split_on(a, sep).last() + b0);
        assert(p.last().push(b.last()) =~= split_on(a, sep).last() + b);
        assert(split_on(a + b, sep) =~= split_on(a, sep).update(
            split_on(a, sep).len() - 1,
            split_on(a, sep).last() + b,
        ));
    }
}

/// What comes before the `j`-th arc in the text: nothing for the first,
/// the line break after `';'` for the others.
pub open spec fn lead(j: int) -> Seq<char> {
    if j == 0 {
        Seq::empty()
    } else {
        seq!['\n']
    }
}

/// The `';'`-pieces of the text of the first `k` arcs.
pub open spec fn text_pieces(cs: Seq<Cmd>, k: int) -> Seq<Seq<char>> {
    Seq::new(
        (k + 1) as nat,
        |j: int|
            if j < k {
                lead(j) + arc_body(cs[j])
            } else {
                lead(k)
            },
    )
}

proof fn lemma_text_step(cs: Seq<Cmd>, k: int)
    requires
        0 <= k < cs.len(),
    ensures
        commands_text(cs.take(k + 1)) == commands_text(cs.take(k)) + command_text(cs[k]) + seq!['\n'],
{
    assert(cs.take(k + 1).drop_last() =~= cs.take(k));
    assert(cs.take(k + 1).last() == cs[k]);
}

proof fn lemma_split_text(cs: Seq<Cmd>, k: int)
    requires
        0 <= k <= cs.len(),
        forall|j: int| 0 <= j < cs.len() ==> plain_arc(#[trigger] cs[j]),
    ensures
        split_on(commands_text(cs.take(k)), ';') == text_pieces(cs, k),
    decreases k,
{
    if k == 0 {
        assert(cs.take(0) =~= Seq::<Cmd>::empty());
        assert(commands_text(Seq::<Cmd>::empty()) == Seq::<char>::empty());
        assert(text_pieces(cs, 0) =~= seq![Seq::<char>::empty()]);
    } else {
        let j = k - 1;
        lemma_split_text(cs, j);
        lemma_text_step(cs, j);
        lemma_arc_text(cs[j]);
        lemma_body_facts(cs[j]);
        let prev = commands_text(cs.take(j));
        let body = arc_body(cs[j]);
        lemma_split_append(prev, body, ';');
        let p1 = split_on(prev + body, ';');
        assert(p1 =~= text_pieces(cs, j).update(j, lead(j) + body));
        assert((prev + body).push(';').drop_last() == prev + body);
        let p2 = split_on((prev + body).push(';'), ';');
        assert(p2 == p1.push(Seq::<char>::empty()));
        let nl: Seq<char> = seq!['\n'];
        assert(!has_char(nl, ';'));
        lemma_split_append((prev + body).push(';'), nl, ';');
        assert(commands_text(cs.take(k)) =~= (prev + body).push(';') + nl);
        assert(Seq::<char>::empty() + nl =~= nl);
        assert(split_on(commands_text(cs.take(k)), ';') =~= text_pieces(cs, k));
    }
}

proof fn lemma_text_first(cs: Seq<Cmd>, k: int)
    requires
        1 <= k <= cs.len(),
        forall|j: int| 0 <= j < cs.len() ==> plain_arc(#[trigger] cs[j]),
    ensures
        commands_text(cs.take(k)).len() > 0,
        commands_text(cs.take(k))[0] == arc_body(cs[0])[0],
    decreases k,
{
    lemma_text_step(cs, k - 1);
    lemma_arc_text(cs[k - 1]);
    lemma_body_facts(cs[k - 1]);
    if k == 1 {
        assert(cs.take(0) =~= Seq::<Cmd>::empty());
        assert(commands_text(Seq::<Cmd>::empty()) == Seq::<char>::empty());
    } else {
        lemma_text_first(cs, k - 1);
    }
}

proof fn lemma_parse_text_pieces(cs: Seq<Cmd>, ps: Seq<Seq<char>>, k: int)
    requires
        0 <= k <= cs.len(),
        ps.len() == cs.len() + 1,
        forall|j: int| 0 <= j < cs.len() ==> plain_arc(#[trigger] cs[j]),
        forall|j: int| 0 <= j < cs.len() ==> #[trigger] ps[j] == lead(j) + arc_body(cs[j]),
        ps[cs.len() as int] == Seq::<char>::empty(),
    ensures
        parse_pieces(ps, k, cs.take(k)) == Ok::<Seq<Cmd>, Seq<char>>(cs),
    decreases cs.len() - k,
{
    if k == cs.len() {
        assert(trim(Seq::<char>::empty()) == Seq::<char>::empty());
        assert(cs.take(k) == cs);
        assert(trim(ps[k]).len() == 0);
        assert(parse_pieces(ps, k + 1, cs.take(k)) == Ok::<Seq<Cmd>, Seq<char>>(cs.take(k)));
    } else {
        lemma_body_facts(cs[k]);
        assert forall|j: int| 0 <= j < lead(k).len() implies is_white(#[trigger] lead(k)[j]) by {}
        lemma_trim_around(lead(k), arc_body(cs[k]), Seq::empty());
        assert(lead(k) + arc_body(cs[k]) + Seq::<char>::empty() == ps[k]);
        lemma_parse_arc(cs[k]);
        assert(trim(ps[k]) == arc_body(cs[k]));
        assert(trim(ps[k]).len() > 0);
        assert(cs.take(k).push(cs[k]) =~= cs.take(k + 1));
        lemma_parse_text_pieces(cs, ps, k + 1);
        assert(parse_pieces(ps, k, cs.take(k)) == parse_pieces(ps, k + 1, cs.take(k).push(cs[k])));
    }
}

/// Parsing the text of a non-empty list of arcs with plain names and
/// weights (see [`plain`]) gives the list back.
pub proof fn law_arcs_text_parses_back(cs: Seq<Cmd>)
    requires
        cs.len() > 0,
        forall|j: int| 0 <= j < cs.len() ==> plain_arc(#[trigger] cs[j]),
    ensures
        parse_spec(commands_text(cs)) == Ok::<Seq<Cmd>, Seq<char>>(cs),
{
    let n = cs.len() as int;
    let last = cs[n - 1];
    lemma_text_step(cs, n - 1);
    lemma_arc_text(last);
    lemma_body_facts(last);
    assert(cs.take(n) == cs);
    let prev = commands_text(cs.take(n - 1));
    let t = (prev + arc_body(last)).push(';');
    let nl: Seq<char> = seq!['\n'];
    assert(commands_text(cs) =~= t + nl);
    lemma_text_first(cs, n);
    lemma_body_facts(cs[0]);
    assert(t[0] == commands_text(cs)[0]);
    assert(forall|j: int| 0 <= j < nl.len() ==> is_white(#[trigger] nl[j]));
    lemma_trim_around(Seq::empty(), t, nl);
    assert(Seq::<char>::empty() + t + nl == commands_text(cs));
    lemma_split_text(cs, n - 1);
    lemma_split_append(prev, arc_body(last), ';');
    assert(t.drop_last() == prev + arc_body(last));
    let ps = split_on(t, ';');
    assert(ps == split_on(prev + arc_body(last), ';').push(Seq::<char>::empty()));
    assert(forall|j: int| 0 <= j < n ==> #[trigger] ps[j] == lead(j) + arc_body(cs[j]));
    assert(cs.take(0) =~= Seq::<Cmd>::empty());
    lemma_parse_text_pieces(cs, ps, 0);
}

/// Whether every character of `w` is whitespace.
pub open spec fn all_white(w: Seq<char>) -> bool {
    forall|j: int| 0 <= j < w.len() ==> is_white(#[trigger] w[j])
}

/// The text of an arc into a transition with the whitespace `w1` before
/// the arrow, `w2` after it, and `w3` between the transition and the
/// weight.
pub open spec fn spaced_arc_into(
    from: Seq<char>,
    to: Seq<char>,
    amount: Seq<char>,
    w1: Seq<char>,
    w2: Seq<char>,
    w3: Seq<char>,
) -> Seq<char> {
    from + w1 + seq!['-', '>'] + w2 + seq!['['] + to + seq![']'] + w3 + seq!['('] + amount + seq![
        ')',
    ]
}

/// The text of an arc out of a transition with the whitespace `w1` before
/// the arrow, `w2` after it, and `w3` between the place and the weight.
pub open spec fn spaced_arc_out(
    from: Seq<char>,
    to: Seq<char>,
    amount: Seq<char>,
    w1: Seq<char>,
    w2: Seq<char>,
    w3: Seq<char>,
) -> Seq<char> {
    seq!['['] + from + seq![']'] + w1 + seq!['-', '>'] + w2 + to + w3 + seq!['('] + amount + seq![
        ')',
    ]
}

proof fn lemma_no_char_white(w: Seq<char>, c: char)
    requires
        all_white(w),
        !is_white(c),
    ensures
        !has_char(w, c),
{
    if has_char(w, c) {
        let i = choose|i: int| 0 <= i < w.len() && w[i] == c;
        assert(is_white(w[i]));
    }
}

proof fn lemma_spaced_into(
    from: Seq<char>,
    to: Seq<char>,
    amount: Seq<char>,
    w1: Seq<char>,
    w2: Seq<char>,
    w3: Seq<char>,
)
    requires
        plain(from),
        plain(to),
        plain(amount),
        all_white(w1),
        all_white(w2),
        all_white(w3),
    ensures
        command_spec(spaced_arc_into(from, to, amount, w1, w2, w3)) == Ok::<Cmd, Seq<char>>(
            Cmd::Connection { from, to, amount, to_transition: true, from_transition: false },
        ),
{
    reveal(connection_spec);
    let body = spaced_arc_into(from, to, amount, w1, w2, w3);
    let f = from.len() as int;
    let l1 = w1.len() as int;
    let none: Seq<char> = Seq::empty();
    lemma_trimmed_ends(from);
    lemma_trimmed_ends(to);
    lemma_trimmed_ends(amount);
    assert(body[f + l1] == '-' && body[f + l1 + 1] == '>');
    assert forall|k: int| 0 <= k < f + l1 implies !#[trigger] arrow_at(body, k) by {
        if k + 1 < f {
            assert(body[k] == from[k] && body[k + 1] == from[k + 1]);
            lemma_plain_char(from, k);
        } else if k < f {
            if l1 > 0 {
                assert(body[k + 1] == w1[0]);
                assert(is_white(w1[0]));
            } else {
                assert(body[k + 1] == '-');
            }
        } else {
            assert(body[k] == w1[k - f]);
            assert(is_white(w1[k - f]));
        }
    }
    lemma_first_arrow_at(body, f + l1);
    let a = body.take(f + l1);
    assert(a =~= from + w1);
    assert(!has_char(a, '[')) by {
        assert forall|k: int| 0 <= k < a.len() implies a[k] != '[' by {
            if k < f {
                lemma_plain_char(from, k);
            } else {
                assert(a[k] == w1[k - f]);
                assert(is_white(w1[k - f]));
            }
        }
    }
    lemma_trim_around(none, from, w1);
    assert(none + from + w1 == a);
    let x = seq!['['] + to + seq![']'] + w3;
    let y = amount + seq![')'];
    let inner = x + seq!['('] + y;
    let rest = body.skip(f + l1 + 2);
    assert(rest =~= w2 + inner + none);
    assert(inner[0] == '[');
    assert(inner.last() == ')');
    lemma_trim_around(w2, inner, none);
    assert forall|k: int| 0 <= k < y.len() implies #[trigger] y[k] != '(' by {
        if k < amount.len() {
            lemma_plain_char(amount, k);
        }
    }
    lemma_last_open(x, y, y.len() as int);
    assert(inner.take(x.len() as int) =~= x);
    assert(inner.skip(x.len() as int + 1) =~= y);
    assert(separate_spec(rest, body) == Ok::<(Seq<char>, Seq<char>), Seq<char>>((x, y)));
    let bracketed = seq!['['] + to + seq![']'];
    assert(x == bracketed + w3);
    assert(bracketed.last() == ']');
    lemma_trim_around(none, bracketed, w3);
    assert(none + bracketed + w3 == x);
    assert(bracketed.subrange(1, bracketed.len() - 1) =~= to);
    assert(extract_transition_spec(x, body) == Ok::<Seq<char>, Seq<char>>(to));
    assert(y.drop_last() =~= amount);
    assert(extract_amount_spec(y, body) == Ok::<Seq<char>, Seq<char>>(amount));
    assert(check_syntax_spec(to, amount, body) == Ok::<(), Seq<char>>(()));
}

proof fn lemma_spaced_out(
    from: Seq<char>,
    to: Seq<char>,
    amount: Seq<char>,
    w1: Seq<char>,
    w2: Seq<char>,
    w3: Seq<char>,
)
    requires
        plain(from),
        plain(to),
        plain(amount),
        all_white(w1),
        all_white(w2),
        all_white(w3),
    ensures
        command_spec(spaced_arc_out(from, to, amount, w1, w2, w3)) == Ok::<Cmd, Seq<char>>(
            Cmd::Connection { from, to, amount, to_transition: false, from_transition: true },
        ),
{
    reveal(connection_spec);
    let body = spaced_arc_out(from, to, amount, w1, w2, w3);
    let f = from.len() as int;
    let l1 = w1.len() as int;
    let none: Seq<char> = Seq::empty();
    lemma_trimmed_ends(from);
    lemma_trimmed_ends(to);
    lemma_trimmed_ends(amount);
    assert(body[f + 2 + l1] == '-' && body[f + 3 + l1] == '>');
    assert forall|k: int| 0 <= k < f + 2 + l1 implies !#[trigger] arrow_at(body, k) by {
        if k == 0 {
            assert(body[0] == '[');
        } else if k < f {
            assert(body[k] == from[k - 1] && body[k + 1] == from[k]);
            lemma_plain_char(from, k - 1);
        } else if k == f {
            assert(body[f + 1] == ']');
        } else if k == f + 1 {
            assert(body[f + 1] == ']');
        } else {
            assert(body[k] == w1[k - f - 2]);
            assert(is_white(w1[k - f - 2]));
        }
    }
    lemma_first_arrow_at(body, f + 2 + l1);
    let bracketed = seq!['['] + from + seq![']'];
    let a = body.take(f + 2 + l1);
    assert(a =~= none + bracketed + w1);
    assert(a[0] == '[');
    assert(has_char(a, '['));
    assert(bracketed.last() == ']');
    lemma_trim_around(none, bracketed, w1);
    assert(bracketed.subrange(1, bracketed.len() - 1) =~= from);
    assert(extract_transition_spec(a, body) == Ok::<Seq<char>, Seq<char>>(from));
    let x = to + w3;
    let y = amount + seq![')'];
    let inner = x + seq!['('] + y;
    let rest = body.skip(f + 4 + l1);
    assert(rest =~= w2 + inner + none);
    assert(inner[0] == to[0]);
    assert(inner.last() == ')');
    lemma_trim_around(w2, inner, none);
    assert forall|k: int| 0 <= k < y.len() implies #[trigger] y[k] != '(' by {
        if k < amount.len() {
            lemma_plain_char(amount, k);
        }
    }
    lemma_last_open(x, y, y.len() as int);
    assert(inner.take(x.len() as int) =~= x);
    assert(inner.skip(x.len() as int + 1) =~= y);
    assert(separate_spec(rest, body) == Ok::<(Seq<char>, Seq<char>), Seq<char>>((x, y)));
    assert(y.drop_last() =~= amount);
    assert(extract_amount_spec(y, body) == Ok::<Seq<char>, Seq<char>>(amount));
    lemma_trim_around(none, to, w3);
    assert(none + to + w3 == x);
    assert(check_syntax_spec(to, amount, body) == Ok::<(), Seq<char>>(()));
}

/// The pieces of an arc text hold no `';'`.
proof fn lemma_spaced_no_semicolon(parts: Seq<Seq<char>>)
    requires
        forall|k: int| 0 <= k < parts.len() ==> !has_char(#[trigger] parts[k], ';'),
    ensures
        !has_char(parts.fold_left(Seq::<char>::empty(), |acc: Seq<char>, x: Seq<char>| acc + x), ';'),
    decreases parts.len(),
{
    if parts.len() > 0 {
        let init = parts.drop_last();
        assert forall|k: int| 0 <= k < init.len() implies !has_char(#[trigger] init[k], ';') by {
            assert(init[k] == parts[k]);
        }
        lemma_spaced_no_semicolon(init);
        lemma_has_char_concat(
            init.fold_left(Seq::<char>::empty(), |acc: Seq<char>, x: Seq<char>| acc + x),
            parts.last(),
            ';',
        );
        assert(!has_char(parts[parts.len() - 1], ';'));
    }
}

/// An arc into a transition parses alike with any whitespace, or none,
/// around its arrow and before its weight: its place is the text before
/// the arrow, trimmed.
pub proof fn law_arc_into_spacing(
    from: Seq<char>,
    to: Seq<char>,
    amount: Seq<char>,
    w1: Seq<char>,
    w2: Seq<char>,
    w3: Seq<char>,
)
    requires
        plain(from),
        plain(to),
        plain(amount),
        all_white(w1),
        all_white(w2),
        all_white(w3),
    ensures
        parse_spec(spaced_arc_into(from, to, amount, w1, w2, w3).push(';')) == Ok::<
            Seq<Cmd>,
            Seq<char>,
        >(seq![Cmd::Connection { from, to, amount, to_transition: true, from_transition: false }]),
{
    let body = spaced_arc_into(from, to, amount, w1, w2, w3);
    lemma_spaced_into(from, to, amount, w1, w2, w3);
    lemma_trimmed_ends(from);
    assert(body[0] == from[0]);
    assert(body.last() == ')');
    lemma_trim_around(Seq::empty(), body, Seq::empty());
    assert(Seq::<char>::empty() + body + Seq::<char>::empty() == body);
    lemma_no_char_white(w1, ';');
    lemma_no_char_white(w2, ';');
    lemma_no_char_white(w3, ';');
    let parts = seq![
        from,
        w1,
        seq!['-', '>'],
        w2,
        seq!['['],
        to,
        seq![']'],
        w3,
        seq!['('],
        amount,
        seq![')'],
    ];
    assert forall|k: int| 0 <= k < parts.len() implies !has_char(#[trigger] parts[k], ';') by {
        if k == 2 || k == 4 || k == 6 || k == 8 || k == 10 {
            assert(parts[k].len() <= 2);
            assert(!has_char(parts[k], ';'));
        }
    }
    lemma_spaced_no_semicolon(parts);
    assert(parts.fold_left(Seq::<char>::empty(), |acc: Seq<char>, x: Seq<char>| acc + x) =~= body)
        by {
        reveal_with_fuel(Seq::fold_left, 12);
    }
    crate::parse_laws::lemma_segment_alone(
        body,
        Cmd::Connection { from, to, amount, to_transition: true, from_transition: false },
    );
}

/// An arc out of a transition parses alike with any whitespace, or none,
/// around its arrow and before its weight.
pub proof fn law_arc_out_spacing(
    from: Seq<char>,
    to: Seq<char>,
    amount: Seq<char>,
    w1: Seq<char>,
    w2: Seq<char>,
    w3: Seq<char>,
)
    requires
        plain(from),
        plain(to),
        plain(amount),
        all_white(w1),
        all_white(w2),
        all_white(w3),
    ensures
        parse_spec(spaced_arc_out(from, to, amount, w1, w2, w3).push(';')) == Ok::<
            Seq<Cmd>,
            Seq<char>,
        >(seq![Cmd::Connection { from, to, amount, to_transition: false, from_transition: true }]),
{
    let body = spaced_arc_out(from, to, amount, w1, w2, w3);
    lemma_spaced_out(from, to, amount, w1, w2, w3);
    assert(body[0] == '[');
    assert(body.last() == ')');
    lemma_trim_around(Seq::empty(), body, Seq::empty());
    assert(Seq::<char>::empty() + body + Seq::<char>::empty() == body);
    lemma_no_char_white(w1, ';');
    lemma_no_char_white(w2, ';');
    lemma_no_char_white(w3, ';');
    let parts = seq![
        seq!['['],
        from,
        seq![']'],
        w1,
        seq!['-', '>'],
        w2,
        to,
        w3,
        seq!['('],
        amount,
        seq![')'],
    ];
    assert forall|k: int| 0 <= k < parts.len() implies !has_char(#[trigger] parts[k], ';') by {
        if k == 0 || k == 2 || k == 4 || k == 8 || k == 10 {
            assert(parts[k].len() <= 2);
            assert(!has_char(parts[k], ';'));
        }
    }
    lemma_spaced_no_semicolon(parts);
    assert(parts.fold_left(Seq::<char>::empty(), |acc: Seq<char>, x: Seq<char>| acc + x) =~= body)
        by {
        reveal_with_fuel(Seq::fold_left, 12);
    }
    crate::parse_laws::lemma_segment_alone(
        body,
        Cmd::Connection { from, to, amount, to_transition: false, from_transition: true },
    );
}

} // verus!
