//! How the parser treats the `';'`-separated pieces of a text: each piece
//! stands for one command on its own, and texts that parse can be joined.
use vstd::prelude::*;

use crate::command::Cmd;
use crate::parser::{command_spec, parse_pieces, parse_spec, split_on};
use crate::round_trip::{
    lemma_has_char_concat, lemma_split_append, lemma_split_nonempty, lemma_trim_around,
    lemma_trim_start_white,
};
use crate::text::{
    has_char, is_white, lemma_trim_end_shape, lemma_trim_shape, lemma_trim_start_shape,
    lemma_trimmed_ends, trim, trim_end, trim_start,
};

verus! {

/// The non-empty pieces of `ps[k..]`, trimmed.
pub open spec fn segs_from(ps: Seq<Seq<char>>, k: int) -> Seq<Seq<char>>
    decreases ps.len() - k,
{
    if k < 0 || k >= ps.len() {
        Seq::empty()
    } else if trim(ps[k]).len() == 0 {
        segs_from(ps, k + 1)
    } else {
        seq![trim(ps[k])] + segs_from(ps, k + 1)
    }
}

/// The commands of a text as the parser sees them: the text trimmed, split
/// at each `';'`, each piece trimmed, empty pieces left out.
pub open spec fn segments(src: Seq<char>) -> Seq<Seq<char>> {
    segs_from(split_on(trim(src), ';'), 0)
}

/// No piece of a split holds the separator.
proof fn lemma_split_no_sep(s: Seq<char>, sep: char)
    ensures
        forall|j: int|
            0 <= j < split_on(s, sep).len() ==> !has_char(#[trigger] split_on(s, sep)[j], sep),
    decreases s.len(),
{
    if s.len() > 0 {
        lemma_split_no_sep(s.drop_last(), sep);
        lemma_split_nonempty(s.drop_last(), sep);
        let p = split_on(s.drop_last(), sep);
        let q = split_on(s, sep);
        assert forall|j: int| 0 <= j < q.len() implies !has_char(#[trigger] q[j], sep) by {
            if s.last() != sep && j == p.len() - 1 {
                assert(!has_char(p[j], sep));
                lemma_has_char_concat(p[j], seq![s.last()], sep);
                assert(p[j].push(s.last()) == p[j] + seq![s.last()]);
            } else if j < p.len() {
                assert(q[j] == p[j]);
            }
        }
    }
}

/// Each segment is non-empty, trimmed and free of `';'`.
proof fn lemma_segs_shape(ps: Seq<Seq<char>>, k: int, sep: char)
    requires
        0 <= k,
        forall|j: int| 0 <= j < ps.len() ==> !has_char(#[trigger] ps[j], sep),
    ensures
        forall|i: int|
            0 <= i < segs_from(ps, k).len() ==> {
                let g = #[trigger] segs_from(ps, k)[i];
                g.len() > 0 && trim(g) == g && !has_char(g, sep)
            },
    decreases ps.len() - k,
{
    if k < ps.len() {
        lemma_segs_shape(ps, k + 1, sep);
        if trim(ps[k]).len() > 0 {
            lemma_trim_shape(ps[k]);
            let r = segs_from(ps, k + 1);
            assert forall|i: int| 0 <= i < segs_from(ps, k).len() implies {
                let g = #[trigger] segs_from(ps, k)[i];
                g.len() > 0 && trim(g) == g && !has_char(g, sep)
            } by {
                if i > 0 {
                    assert(segs_from(ps, k)[i] == r[i - 1]);
                }
            }
        }
    }
}

/// A successful parse of the pieces `ps[k..]` after `acc` gives one command
/// per segment, in order.
proof fn lemma_pieces_segments(ps: Seq<Seq<char>>, k: int, acc: Seq<Cmd>)
    requires
        0 <= k,
    ensures
        parse_pieces(ps, k, acc) matches Ok(cs) ==> {
            &&& cs.len() == acc.len() + segs_from(ps, k).len()
            &&& cs.take(acc.len() as int) == acc
            &&& forall|i: int|
                0 <= i < segs_from(ps, k).len() ==> command_spec(#[trigger] segs_from(ps, k)[i])
                    == Ok::<Cmd, Seq<char>>(cs[acc.len() + i])
        },
    decreases ps.len() - k,
{
    if k >= ps.len() {
        assert(acc.take(acc.len() as int) =~= acc);
    } else if trim(ps[k]).len() == 0 {
        lemma_pieces_segments(ps, k + 1, acc);
    } else {
        match command_spec(trim(ps[k])) {
            Err(_) => {},
            Ok(c) => {
                lemma_pieces_segments(ps, k + 1, acc.push(c));
                match parse_pieces(ps, k, acc) {
                    Ok(cs) => {
                        assert(cs.take(acc.len() as int + 1) == acc.push(c));
                        assert(cs.take(acc.len() as int) =~= acc.push(c).take(acc.len() as int));
                        assert(acc.push(c).take(acc.len() as int) =~= acc);
                        assert(cs[acc.len() as int] == cs.take(acc.len() as int + 1)[acc.len() as int]);
                        let r = segs_from(ps, k + 1);
                        assert forall|i: int| 0 <= i < segs_from(ps, k).len() implies command_spec(
                            #[trigger] segs_from(ps, k)[i],
                        ) == Ok::<Cmd, Seq<char>>(cs[acc.len() + i]) by {
                            if i > 0 {
                                assert(segs_from(ps, k)[i] == r[i - 1]);
                                assert(command_spec(r[i - 1]) == Ok::<Cmd, Seq<char>>(
                                    cs[acc.len() + 1 + (i - 1)],
                                ));
                            }
                        }
                    },
                    Err(_) => {},
                }
            },
        }
    }
}

/// A split of a text without separators is the text alone.
proof fn lemma_split_single(s: Seq<char>, sep: char)
    requires
        !has_char(s, sep),
    ensures
        split_on(s, sep) == seq![s],
{
    lemma_split_append(Seq::empty(), s, sep);
    assert(Seq::<char>::empty() + s == s);
    assert(split_on(Seq::<char>::empty(), sep) == seq![Seq::<char>::empty()]);
}

/// One segment followed by `';'` parses to its command alone.
pub(crate) proof fn lemma_segment_alone(g: Seq<char>, c: Cmd)
    requires
        g.len() > 0,
        trim(g) == g,
        !has_char(g, ';'),
        command_spec(g) == Ok::<Cmd, Seq<char>>(c),
    ensures
        parse_spec(g.push(';')) == Ok::<Seq<Cmd>, Seq<char>>(seq![c]),
{
    let t = g.push(';');
    lemma_trimmed_ends(g);
    let none: Seq<char> = Seq::empty();
    assert(t[0] == g[0]);
    assert(!is_white(';'));
    lemma_trim_around(none, t, none);
    assert(none + t + none == t);
    assert(trim(t) == t);
    lemma_split_single(g, ';');
    assert(t.drop_last() == g);
    let ps = split_on(t, ';');
    assert(ps == seq![g].push(none));
    assert(ps[0] == g);
    assert(ps[1] == none);
    assert(trim(none) == none);
    assert(parse_pieces(ps, 2, seq![c]) == Ok::<Seq<Cmd>, Seq<char>>(seq![c]));
    assert(parse_pieces(ps, 1, seq![c]) == Ok::<Seq<Cmd>, Seq<char>>(seq![c]));
    assert(Seq::<Cmd>::empty().push(c) == seq![c]);
    assert(parse_pieces(ps, 0, Seq::empty()) == Ok::<Seq<Cmd>, Seq<char>>(seq![c]));
}

/// Every non-empty `';'`-separated piece of a text that parses is a command
/// on its own: the text gives one command per piece, in order, and each
/// piece followed by `';'` parses to its command alone.
pub proof fn law_segments_parse_alone(src: Seq<char>)
    ensures
        parse_spec(src) matches Ok(cs) ==> {
            &&& cs.len() == segments(src).len()
            &&& forall|i: int|
                0 <= i < cs.len() ==> parse_spec(#[trigger] segments(src)[i].push(';'))
                    == Ok::<Seq<Cmd>, Seq<char>>(seq![cs[i]])
        },
{
    let t = trim(src);
    if t.len() > 0 && t.last() == ';' {
        let ps = split_on(t, ';');
        lemma_pieces_segments(ps, 0, Seq::empty());
        lemma_split_no_sep(t, ';');
        lemma_segs_shape(ps, 0, ';');
        match parse_spec(src) {
            Ok(cs) => {
                assert forall|i: int| 0 <= i < cs.len() implies parse_spec(
                    #[trigger] segments(src)[i].push(';'),
                ) == Ok::<Seq<Cmd>, Seq<char>>(seq![cs[i]]) by {
                    let g = segs_from(ps, 0)[i];
                    assert(command_spec(g) == Ok::<Cmd, Seq<char>>(cs[0 + i]));
                    lemma_segment_alone(g, cs[i]);
                }
            },
            Err(_) => {},
        }
    }
}

/// Splitting `u + v` joins the last piece of `u` with the first of `v`.
proof fn lemma_split_concat(u: Seq<char>, v: Seq<char>, sep: char)
    ensures
        split_on(u + v, sep) == split_on(u, sep).drop_last() + seq![
            split_on(u, sep).last() + split_on(v, sep)[0],
        ] + split_on(v, sep).skip(1),
    decreases v.len(),
{
    let su = split_on(u, sep);
    lemma_split_nonempty(u, sep);
    if v.len() == 0 {
        assert(u + v == u);
        assert(split_on(v, sep) == seq![Seq::<char>::empty()]);
        assert(su.last() + Seq::<char>::empty() == su.last());
        assert(su.drop_last() + seq![su.last()] + split_on(v, sep).skip(1) =~= su);
    } else {
        let v0 = v.drop_last();
        let ch = v.last();
        lemma_split_concat(u, v0, sep);
        lemma_split_nonempty(v0, sep);
        assert((u + v).drop_last() == u + v0);
        assert((u + v).last() == ch);
        let sv0 = split_on(v0, sep);
        let sv = split_on(v, sep);
        let p = split_on(u + v0, sep);
        if ch == sep {
            assert(sv == sv0.push(Seq::<char>::empty()));
            assert(split_on(u + v, sep) == p.push(Seq::<char>::empty()));
            assert(sv[0] == sv0[0]);
            assert(sv.skip(1) =~= sv0.skip(1).push(Seq::<char>::empty()));
            assert(split_on(u + v, sep) =~= su.drop_last() + seq![su.last() + sv[0]] + sv.skip(1));
        } else {
            assert(sv == sv0.update(sv0.len() - 1, sv0.last().push(ch)));
            assert(split_on(u + v, sep) == p.update(p.len() - 1, p.last().push(ch)));
            if sv0.len() == 1 {
                assert(sv[0] == sv0[0].push(ch));
                assert(su.last() + sv0[0].push(ch) =~= (su.last() + sv0[0]).push(ch));
                assert(split_on(u + v, sep) =~= su.drop_last() + seq![su.last() + sv[0]]
                    + sv.skip(1));
            } else {
                assert(sv[0] == sv0[0]);
                assert(sv.skip(1) =~= sv0.skip(1).update(
                    sv0.len() - 2,
                    sv0.last().push(ch),
                ));
                assert(split_on(u + v, sep) =~= su.drop_last() + seq![su.last() + sv[0]]
                    + sv.skip(1));
            }
        }
    }
}

/// Parsing from inside the second of two piece lists ignores the first.
proof fn lemma_pieces_skip(q: Seq<Seq<char>>, p: Seq<Seq<char>>, j: int, acc: Seq<Cmd>)
    requires
        0 <= j,
    ensures
        parse_pieces(q + p, q.len() + j, acc) == parse_pieces(p, j, acc),
    decreases p.len() - j,
{
    if j < p.len() {
        assert((q + p)[q.len() + j] == p[j]);
        if trim(p[j]).len() == 0 {
            lemma_pieces_skip(q, p, j + 1, acc);
        } else {
            match command_spec(trim(p[j])) {
                Ok(c) => {
                    lemma_pieces_skip(q, p, j + 1, acc.push(c));
                },
                Err(_) => {},
            }
        }
    }
}

/// Parsing two piece lists one after the other.
proof fn lemma_pieces_concat(q: Seq<Seq<char>>, p: Seq<Seq<char>>, k: int, acc: Seq<Cmd>)
    requires
        0 <= k <= q.len(),
    ensures
        parse_pieces(q + p, k, acc) == (match parse_pieces(q, k, acc) {
            Ok(r) => parse_pieces(p, 0, r),
            Err(e) => Err(e),
        }),
    decreases q.len() - k,
{
    if k == q.len() {
        lemma_pieces_skip(q, p, 0, acc);
    } else {
        assert((q + p)[k] == q[k]);
        if trim(q[k]).len() == 0 {
            lemma_pieces_concat(q, p, k + 1, acc);
        } else {
            match command_spec(trim(q[k])) {
                Ok(c) => {
                    lemma_pieces_concat(q, p, k + 1, acc.push(c));
                },
                Err(_) => {},
            }
        }
    }
}

/// The commands parsed before are kept in front.
proof fn lemma_pieces_acc(ps: Seq<Seq<char>>, k: int, a: Seq<Cmd>, b: Seq<Cmd>)
    requires
        0 <= k,
    ensures
        parse_pieces(ps, k, a + b) == (match parse_pieces(ps, k, b) {
            Ok(r) => Ok::<Seq<Cmd>, Seq<char>>(a + r),
            Err(e) => Err(e),
        }),
    decreases ps.len() - k,
{
    if k < ps.len() {
        if trim(ps[k]).len() == 0 {
            lemma_pieces_acc(ps, k + 1, a, b);
        } else {
            match command_spec(trim(ps[k])) {
                Ok(c) => {
                    assert((a + b).push(c) =~= a + b.push(c));
                    lemma_pieces_acc(ps, k + 1, a, b.push(c));
                },
                Err(_) => {},
            }
        }
    }
}

/// Piece lists that agree from `k` on parse alike from `k` on.
proof fn lemma_pieces_agree(p1: Seq<Seq<char>>, p2: Seq<Seq<char>>, k: int, acc: Seq<Cmd>)
    requires
        0 <= k,
        p1.len() == p2.len(),
        forall|j: int| k <= j < p1.len() ==> p1[j] == p2[j],
    ensures
        parse_pieces(p1, k, acc) == parse_pieces(p2, k, acc),
    decreases p1.len() - k,
{
    if k < p1.len() {
        assert(p1[k] == p2[k]);
        if trim(p1[k]).len() == 0 {
            lemma_pieces_agree(p1, p2, k + 1, acc);
        } else {
            match command_spec(trim(p1[k])) {
                Ok(c) => {
                    lemma_pieces_agree(p1, p2, k + 1, acc.push(c));
                },
                Err(_) => {},
            }
        }
    }
}

/// Whitespace in front of a text does not change its trimmed form.
proof fn lemma_trim_white_front(m: Seq<char>, x: Seq<char>)
    requires
        forall|j: int| 0 <= j < m.len() ==> is_white(#[trigger] m[j]),
    ensures
        trim(m + x) == trim(x),
{
    lemma_trim_start_white(m, x);
}

/// A text is its trimmed form with whitespace around it.
proof fn lemma_trim_split(a: Seq<char>) -> (r: (Seq<char>, Seq<char>))
    ensures
        a == r.0 + trim(a) + r.1,
        forall|j: int| 0 <= j < r.0.len() ==> is_white(#[trigger] r.0[j]),
        forall|j: int| 0 <= j < r.1.len() ==> is_white(#[trigger] r.1[j]),
{
    let s1 = trim_start(a);
    let t = trim_end(s1);
    lemma_trim_start_shape(a);
    lemma_trim_end_shape(s1);
    let pre = a.take(a.len() - s1.len());
    let post = s1.skip(t.len() as int);
    assert forall|j: int| 0 <= j < pre.len() implies is_white(#[trigger] pre[j]) by {
        assert(pre[j] == a[j]);
    }
    assert forall|j: int| 0 <= j < post.len() implies is_white(#[trigger] post[j]) by {
        assert(post[j] == s1[t.len() + j]);
    }
    assert(s1 =~= t + post);
    assert(a =~= pre + s1);
    assert(a =~= pre + t + post);
    (pre, post)
}

/// Joining two texts that parse parses to the commands of the first
/// followed by those of the second.
pub proof fn law_parse_concat(a: Seq<char>, b: Seq<char>)
    requires
        parse_spec(a) is Ok,
        parse_spec(b) is Ok,
    ensures
        parse_spec(a + b) == Ok::<Seq<Cmd>, Seq<char>>(
            parse_spec(a)->Ok_0 + parse_spec(b)->Ok_0,
        ),
{
    let x = parse_spec(a)->Ok_0;
    let y = parse_spec(b)->Ok_0;
    let ta = trim(a);
    let tb = trim(b);
    let (pa, sa) = lemma_trim_split(a);
    let (pb, sb) = lemma_trim_split(b);
    lemma_trim_shape(a);
    lemma_trim_shape(b);
    let m = sa + pb;
    assert forall|j: int| 0 <= j < m.len() implies is_white(#[trigger] m[j]) by {
        if j < sa.len() {
            assert(m[j] == sa[j]);
        } else {
            assert(m[j] == pb[j - sa.len()]);
        }
    }
    let mid = ta + m + tb;
    assert(a + b =~= pa + mid + sb);
    assert(mid[0] == ta[0]);
    assert(mid.last() == tb.last());
    lemma_trim_around(pa, mid, sb);
    assert(trim(a + b) == mid);
    // the pieces of the joined text
    let sta = split_on(ta, ';');
    let stb = split_on(tb, ';');
    assert(ta.drop_last() + seq![';'] =~= ta);
    assert(sta == split_on(ta.drop_last(), ';').push(Seq::<char>::empty()));
    lemma_split_nonempty(ta.drop_last(), ';');
    lemma_split_nonempty(tb, ';');
    let qa = sta.drop_last();
    assert(sta.last() == Seq::<char>::empty());
    assert(!has_char(m, ';')) by {
        if has_char(m, ';') {
            let i = choose|i: int| 0 <= i < m.len() && m[i] == ';';
            assert(is_white(m[i]));
        }
    }
    lemma_split_single(m, ';');
    lemma_split_concat(m, tb, ';');
    let qb = seq![m + stb[0]] + stb.skip(1);
    assert(split_on(m, ';').drop_last() =~= Seq::<Seq<char>>::empty());
    assert(split_on(m, ';').last() == m);
    assert(split_on(m + tb, ';') =~= qb);
    assert(ta + m + tb == ta + (m + tb));
    lemma_split_concat(ta, m + tb, ';');
    assert(Seq::<char>::empty() + (m + stb[0]) == m + stb[0]);
    assert(split_on(mid, ';') =~= qa + qb);
    // the first text
    assert(sta =~= qa + seq![Seq::<char>::empty()]);
    lemma_pieces_concat(qa, seq![Seq::<char>::empty()], 0, Seq::empty());
    assert(trim(Seq::<char>::empty()) == Seq::<char>::empty());
    assert(parse_pieces(qa, 0, Seq::empty()) == Ok::<Seq<Cmd>, Seq<char>>(x)) by {
        match parse_pieces(qa, 0, Seq::empty()) {
            Ok(r) => {
                assert(parse_pieces(seq![Seq::<char>::empty()], 1, r) == Ok::<Seq<Cmd>, Seq<char>>(r));
                assert(parse_pieces(seq![Seq::<char>::empty()], 0, r) == Ok::<Seq<Cmd>, Seq<char>>(r));
            },
            Err(_) => {},
        }
    }
    // the second text
    lemma_trim_white_front(m, stb[0]);
    lemma_pieces_agree(qb, stb, 1, Seq::empty());
    assert(parse_pieces(qb, 0, Seq::empty()) == parse_pieces(stb, 0, Seq::empty())) by {
        assert(qb[0] == m + stb[0]);
        if trim(stb[0]).len() > 0 {
            match command_spec(trim(stb[0])) {
                Ok(c) => {
                    lemma_pieces_agree(qb, stb, 1, Seq::<Cmd>::empty().push(c));
                },
                Err(_) => {},
            }
        }
    }
    lemma_pieces_concat(qa, qb, 0, Seq::empty());
    lemma_pieces_acc(qb, 0, x, Seq::empty());
    assert(x + Seq::<Cmd>::empty() == x);
}

} // verus!
