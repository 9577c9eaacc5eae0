//! The parser of the textual Petri-net language:
//!
//! - `place -> [transition] (amount);` an arc into a transition,
//! - `[transition] -> place (amount);` an arc out of a transition,
//! - `place***;` a place holding as many tokens as stars.
use vstd::prelude::*;

use crate::command::{cmds_view, Cmd, PCommand, PCommands, ParseError};
use crate::text::{
    arrow_at, chars_of, contains_arrow, contains_char, find_arrow, first_arrow, has_arrow,
    has_char, alphanumeric, ascii_alnum, is_alphanumeric, string_of, trim, trim_str,
};

verus! {

/// `prefix`, the offending command, and `suffix`: the shape of every
/// parse error message.
pub open spec fn message(prefix: Seq<char>, pcmd: Seq<char>, suffix: Seq<char>) -> Seq<char> {
    prefix + pcmd + suffix
}

fn message_with(prefix: &str, pcmd: &str, suffix: &str) -> (r: ParseError)
    ensures
        r@ == message(prefix@, pcmd@, suffix@),
{
    let mut m = String::from_str(prefix);
    m.append(pcmd);
    m.append(suffix);
    ParseError::new(m)
}

/// The value of a result that holds a string slice or a parse error.
pub open spec fn str_result(r: Result<&str, ParseError>) -> Result<Seq<char>, Seq<char>> {
    match r {
        Ok(s) => Ok(s@),
        Err(e) => Err(e@),
    }
}

/// `[name]` with whitespace around it and around `name`: `name`.
pub open spec fn extract_transition_spec(s: Seq<char>, pcmd: Seq<char>) -> Result<
    Seq<char>,
    Seq<char>,
> {
    let t = trim(s);
    if t.len() >= 2 && t[0] == '[' && t.last() == ']' {
        Ok(trim(t.subrange(1, t.len() - 1)))
    } else {
        Err(message("OK Unclosed sqr_bracket in: '"@, pcmd, "'"@))
    }
}

/// `amount)`: the amount, trimmed.
pub open spec fn extract_amount_spec(s: Seq<char>, pcmd: Seq<char>) -> Result<
    Seq<char>,
    Seq<char>,
> {
    if s.len() >= 1 && s.last() == ')' {
        Ok(trim(s.drop_last()))
    } else {
        Err(message("Unclosed bracket in: '"@, pcmd, "'"@))
    }
}

/// The index of the last `'('` in `t[..j]`, or `-1`.
pub open spec fn last_open_before(t: Seq<char>, j: int) -> int
    decreases j,
{
    if j <= 0 {
        -1
    } else if t[j - 1] == '(' {
        j - 1
    } else {
        last_open_before(t, j - 1)
    }
}

/// `target (amount)`, trimmed, split at its last `'('`.
pub open spec fn separate_spec(s: Seq<char>, pcmd: Seq<char>) -> Result<
    (Seq<char>, Seq<char>),
    Seq<char>,
> {
    let t = trim(s);
    let j = last_open_before(t, t.len() as int);
    if j >= 0 {
        Ok((t.take(j), t.skip(j + 1)))
    } else {
        Err(message("Expected '()' after target: '"@, pcmd, "'"@))
    }
}

/// Both ends of a connection must be non-empty and hold neither `"->"` nor `'*'`.
pub open spec fn check_syntax_spec(target: Seq<char>, amount: Seq<char>, pcmd: Seq<char>) -> Result<
    (),
    Seq<char>,
> {
    if target.len() == 0 || amount.len() == 0 || has_arrow(target) || has_arrow(amount) {
        Err(message("Invalid connection: '"@, pcmd, "'"@))
    } else if has_char(target, '*') || has_char(amount, '*') {
        Err(message("Invalid connection syntax: '"@, pcmd, "'"@))
    } else {
        Ok(())
    }
}

/// The connection `pcmd`, whose first `"->"` starts at index `i`.
#[verifier::opaque]
pub open spec fn connection_spec(pcmd: Seq<char>, i: int) -> Result<Cmd, Seq<char>> {
    let a = pcmd.take(i);
    let rest = pcmd.skip(i + 2);
    if has_char(a, '[') {
        match extract_transition_spec(a, pcmd) {
            Err(e) => Err(e),
            Ok(from) => match separate_spec(rest, pcmd) {
                Err(e) => Err(e),
                Ok(parts) => match extract_amount_spec(parts.1, pcmd) {
                    Err(e) => Err(e),
                    Ok(amount) => match check_syntax_spec(trim(parts.0), amount, pcmd) {
                        Err(e) => Err(e),
                        Ok(_) => Ok(
                            Cmd::Connection {
                                from,
                                to: trim(parts.0),
                                amount,
                                to_transition: false,
                                from_transition: true,
                            },
                        ),
                    },
                },
            },
        }
    } else {
        match separate_spec(rest, pcmd) {
            Err(e) => Err(e),
            Ok(parts) => match extract_transition_spec(parts.0, pcmd) {
                Err(e) => Err(e),
                Ok(target) => match extract_amount_spec(parts.1, pcmd) {
                    Err(e) => Err(e),
                    Ok(amount) => match check_syntax_spec(target, amount, pcmd) {
                        Err(e) => Err(e),
                        Ok(_) => Ok(
                            Cmd::Connection {
                                from: trim(a),
                                to: target,
                                amount,
                                to_transition: true,
                                from_transition: false,
                            },
                        ),
                    },
                },
            },
        }
    }
}

/// The index of the first character of `p[i..]` that is not alphanumeric,
/// or `p.len()`.
pub open spec fn first_non_alnum_from(p: Seq<char>, i: int) -> int
    decreases p.len() - i,
{
    if i >= p.len() {
        p.len() as int
    } else if !alphanumeric(p[i]) {
        i
    } else {
        first_non_alnum_from(p, i + 1)
    }
}

/// The token command `pcmd`: an alphanumeric place name, then stars only.
#[verifier::opaque]
pub open spec fn token_spec(pcmd: Seq<char>) -> Result<Cmd, Seq<char>> {
    let i = first_non_alnum_from(pcmd, 0);
    if i >= pcmd.len() {
        Err(message("Unrecognized command: '"@, pcmd, "'"@))
    } else if forall|j: int| i <= j < pcmd.len() ==> pcmd[j] == '*' {
        Ok(Cmd::Token(pcmd.take(i), (pcmd.len() - i) as usize))
    } else {
        Err(message("Invalid token syntax: '"@, pcmd, ""@))
    }
}

/// One trimmed, non-empty command.
pub open spec fn command_spec(pcmd: Seq<char>) -> Result<Cmd, Seq<char>> {
    match first_arrow(pcmd) {
        Some(i) => connection_spec(pcmd, i),
        None => token_spec(pcmd),
    }
}

/// `s` split at each `sep`, as `str::split` gives it: `n` separators give
/// `n + 1` pieces.
pub open spec fn split_on(s: Seq<char>, sep: char) -> Seq<Seq<char>>
    decreases s.len(),
{
    if s.len() == 0 {
        seq![Seq::<char>::empty()]
    } else {
        let p = split_on(s.drop_last(), sep);
        if s.last() == sep {
            p.push(Seq::<char>::empty())
        } else {
            p.update(p.len() - 1, p.last().push(s.last()))
        }
    }
}

/// Parsing the pieces `ps[k..]` after `acc` was parsed from `ps[..k]`:
/// each piece is trimmed, an empty one is skipped, and the first piece that
/// fails to parse gives the error.
pub open spec fn parse_pieces(ps: Seq<Seq<char>>, k: int, acc: Seq<Cmd>) -> Result<
    Seq<Cmd>,
    Seq<char>,
>
    decreases ps.len() - k,
{
    if k >= ps.len() {
        Ok(acc)
    } else if trim(ps[k]).len() == 0 {
        parse_pieces(ps, k + 1, acc)
    } else {
        match command_spec(trim(ps[k])) {
            Err(e) => Err(e),
            Ok(c) => parse_pieces(ps, k + 1, acc.push(c)),
        }
    }
}

/// What `parse_pcommands` gives for the text `src`.
pub open spec fn parse_spec(src: Seq<char>) -> Result<Seq<Cmd>, Seq<char>> {
    let t = trim(src);
    if t.len() > 0 && t.last() == ';' {
        parse_pieces(split_on(t, ';'), 0, Seq::empty())
    } else {
        Err(message("Invalid command: '"@, t, "'"@))
    }
}

/// The parts of a command that the parser takes apart.
pub trait PetrinetParsing {
    fn extract_transition(&self, pcmd: &str) -> Result<&str, ParseError>;

    fn extract_amount(&self, pcmd: &str) -> Result<&str, ParseError>;

    fn separate_target_and_amount(&self, pcmd: &str) -> Result<(&str, &str), ParseError>;
}

impl PetrinetParsing for &str {
    fn extract_transition(&self, pcmd: &str) -> (r: Result<&str, ParseError>)
        ensures
            str_result(r) == extract_transition_spec(self@, pcmd@),
    {
        let t = trim_str(*self);
        let v = chars_of(t);
        if v.len() >= 2 && v[0] == '[' && v[v.len() - 1] == ']' {
            let inner = t.substring_char(1, v.len() - 1);
            Ok(trim_str(inner))
        } else {
            Err(message_with("OK Unclosed sqr_bracket in: '", pcmd, "'"))
        }
    }

    fn extract_amount(&self, pcmd: &str) -> (r: Result<&str, ParseError>)
        ensures
            str_result(r) == extract_amount_spec(self@, pcmd@),
    {
        let v = chars_of(*self);
        if v.len() >= 1 && v[v.len() - 1] == ')' {
            let inner = (*self).substring_char(0, v.len() - 1);
            assert(inner@ == self@.drop_last());
            Ok(trim_str(inner))
        } else {
            Err(message_with("Unclosed bracket in: '", pcmd, "'"))
        }
    }

    fn separate_target_and_amount(&self, pcmd: &str) -> (r: Result<(&str, &str), ParseError>)
        ensures
            match r {
                Ok(parts) => separate_spec(self@, pcmd@) == Ok::<_, Seq<char>>((parts.0@, parts.1@)),
                Err(e) => separate_spec(self@, pcmd@) == Err::<(Seq<char>, Seq<char>), _>(e@),
            },
    {
        let t = trim_str(*self);
        let v = chars_of(t);
        let mut j: usize = v.len();
        while j > 0 && v[j - 1] != '('
            invariant
                j <= v.len(),
                v@ == t@,
                last_open_before(v@, j as int) == last_open_before(v@, v.len() as int),
            decreases j,
        {
            j = j - 1;
        }
        if j > 0 {
            let target = t.substring_char(0, j - 1);
            let amount = t.substring_char(j, v.len());
            Ok((target, amount))
        } else {
            Err(message_with("Expected '()' after target: '", pcmd, "'"))
        }
    }
}

/// Checks both ends of a connection: see [`check_syntax_spec`].
pub fn check_syntax(target: &str, amount: &str, pcmd: &str) -> (r: Result<(), ParseError>)
    ensures
        match r {
            Ok(_) => check_syntax_spec(target@, amount@, pcmd@) == Ok::<(), Seq<char>>(()),
            Err(e) => check_syntax_spec(target@, amount@, pcmd@) == Err::<(), Seq<char>>(e@),
        },
{
    if target.is_empty() || amount.is_empty() || contains_arrow(target) || contains_arrow(amount) {
        return Err(message_with("Invalid connection: '", pcmd, "'"));
    }
    if contains_char(target, '*') || contains_char(amount, '*') {
        return Err(message_with("Invalid connection syntax: '", pcmd, "'"));
    }
    Ok(())
}

/// The value of a result that holds a command or a parse error.
pub open spec fn cmd_result(r: Result<PCommand, ParseError>) -> Result<Cmd, Seq<char>> {
    match r {
        Ok(c) => Ok(c@),
        Err(e) => Err(e@),
    }
}

/// Whether, for each character of `p` up to and including its first one
/// that is not alphanumeric, the answer on an ASCII character is the ASCII
/// one: what the parser learns of `p` when it reads it as a token command.
pub open spec fn alnum_known(p: Seq<char>) -> bool {
    forall|j: int|
        0 <= j < p.len() && j <= first_non_alnum_from(p, 0) ==> ((#[trigger] p[j] as u32) < 128
            ==> alphanumeric(p[j]) == ascii_alnum(p[j]))
}

fn token_command(pcmd: &str) -> (r: Result<PCommand, ParseError>)
    ensures
        cmd_result(r) == token_spec(pcmd@),
        alnum_known(pcmd@),
{
    reveal(token_spec);
    let v = chars_of(pcmd);
    let mut i: usize = 0;
    while i < v.len()
        invariant
            i <= v.len(),
            v@ == pcmd@,
            first_non_alnum_from(v@, i as int) == first_non_alnum_from(v@, 0),
            forall|j: int| 0 <= j < i ==> ((#[trigger] v@[j] as u32) < 128
                ==> alphanumeric(v@[j]) == ascii_alnum(v@[j])),
        ensures
            i <= v.len(),
            first_non_alnum_from(v@, 0) == i,
            forall|j: int| 0 <= j <= i && j < v.len() ==> ((#[trigger] v@[j] as u32) < 128
                ==> alphanumeric(v@[j]) == ascii_alnum(v@[j])),
        decreases v.len() - i,
    {
        let a = is_alphanumeric(v[i]);
        if !a {
            break;
        }
        i = i + 1;
    }
    assert(first_non_alnum_from(v@, 0) == i);
    assert(alnum_known(pcmd@)) by {
        assert forall|j: int| 0 <= j < pcmd@.len() && j <= first_non_alnum_from(pcmd@, 0) implies ((
        #[trigger] pcmd@[j] as u32) < 128 ==> alphanumeric(pcmd@[j]) == ascii_alnum(pcmd@[j])) by {
            assert(v@[j] == pcmd@[j]);
        }
    }
    if i >= v.len() {
        return Err(message_with("Unrecognized command: '", pcmd, "'"));
    }
    let mut j: usize = i;
    while j < v.len()
        invariant
            i <= j <= v.len(),
            i < v.len(),
            v@ == pcmd@,
            first_non_alnum_from(v@, 0) == i,
            alnum_known(pcmd@),
            forall|k: int| i <= k < j ==> v@[k] == '*',
        decreases v.len() - j,
    {
        if v[j] != '*' {
            assert(pcmd@[j as int] != '*');
            proof {
                reveal(token_spec);
            }
            return Err(message_with("Invalid token syntax: '", pcmd, ""));
        }
        j = j + 1;
    }
    let place = string_of(&v, 0, i);
    assert(v@.subrange(0, i as int) == pcmd@.take(i as int));
    Ok(PCommand::Token(place, v.len() - i))
}

fn connection_command(pcmd: &str, i: usize) -> (r: Result<PCommand, ParseError>)
    requires
        arrow_at(pcmd@, i as int),
    ensures
        cmd_result(r) == connection_spec(pcmd@, i as int),
{
    reveal(connection_spec);
    let n = pcmd.unicode_len();
    let a = pcmd.substring_char(0, i);
    let rest = pcmd.substring_char(i + 2, n);
    assert(a@ == pcmd@.take(i as int));
    assert(rest@ == pcmd@.skip(i + 2));
    if contains_char(a, '[') {
        let from = match a.extract_transition(pcmd) {
            Ok(x) => x,
            Err(e) => {
                return Err(e);
            },
        };
        let (target, amount) = match rest.separate_target_and_amount(pcmd) {
            Ok(parts) => parts,
            Err(e) => {
                return Err(e);
            },
        };
        let target = trim_str(target);
        let amount = match amount.extract_amount(pcmd) {
            Ok(x) => x,
            Err(e) => {
                return Err(e);
            },
        };
        match check_syntax(target, amount, pcmd) {
            Ok(_) => {},
            Err(e) => {
                return Err(e);
            },
        }
        Ok(
            PCommand::Connection {
                from: String::from_str(from),
                to: String::from_str(target),
                amount: String::from_str(amount),
                to_transition: false,
                from_transition: true,
            },
        )
    } else {
        let from = trim_str(a);
        let (target, amount) = match rest.separate_target_and_amount(pcmd) {
            Ok(parts) => parts,
            Err(e) => {
                return Err(e);
            },
        };
        let target = match target.extract_transition(pcmd) {
            Ok(x) => x,
            Err(e) => {
                return Err(e);
            },
        };
        let amount = match amount.extract_amount(pcmd) {
            Ok(x) => x,
            Err(e) => {
                return Err(e);
            },
        };
        match check_syntax(target, amount, pcmd) {
            Ok(_) => {},
            Err(e) => {
                return Err(e);
            },
        }
        Ok(
            PCommand::Connection {
                from: String::from_str(from),
                to: String::from_str(target),
                amount: String::from_str(amount),
                to_transition: true,
                from_transition: false,
            },
        )
    }
}

/// Parses one trimmed, non-empty command.
pub fn parse_command(pcmd: &str) -> (r: Result<PCommand, ParseError>)
    ensures
        cmd_result(r) == command_spec(pcmd@),
        first_arrow(pcmd@) is None ==> alnum_known(pcmd@),
{
    let v = chars_of(pcmd);
    match find_arrow(&v) {
        Some(i) => connection_command(pcmd, i),
        None => token_command(pcmd),
    }
}

/// The pieces of `t` that the ranges `rs` delimit.
pub open spec fn range_pieces(t: Seq<char>, rs: Seq<(usize, usize)>) -> Seq<Seq<char>> {
    Seq::new(rs.len(), |k: int| t.subrange(rs[k].0 as int, rs[k].1 as int))
}

/// Each range is ordered and ends at most at `bound`.
pub open spec fn ranges_within(rs: Seq<(usize, usize)>, bound: int) -> bool {
    forall|k: int| 0 <= k < rs.len() ==> #[trigger] rs[k].0 <= rs[k].1 && rs[k].1 <= bound
}

/// The ranges of the `';'`-separated pieces of `t`.
fn split_ranges(t: &Vec<char>) -> (rs: Vec<(usize, usize)>)
    ensures
        ranges_within(rs@, t.len() as int),
        range_pieces(t@, rs@) == split_on(t@, ';'),
{
    let mut rs: Vec<(usize, usize)> = Vec::new();
    let mut start: usize = 0;
    let mut i: usize = 0;
    assert(t@.take(0) == Seq::<char>::empty());
    assert(range_pieces(t@, rs@).push(t@.subrange(0, 0)) == split_on(t@.take(0), ';'));
    while i < t.len()
        invariant
            start <= i <= t.len(),
            ranges_within(rs@, start as int),
            range_pieces(t@, rs@).push(t@.subrange(start as int, i as int)) == split_on(
                t@.take(i as int),
                ';',
            ),
        decreases t.len() - i,
    {
        let ghost before = range_pieces(t@, rs@).push(t@.subrange(start as int, i as int));
        let ghost old_rs = rs@;
        assert(t@.take(i + 1).drop_last() == t@.take(i as int));
        if t[i] == ';' {
            rs.push((start, i));
            assert(range_pieces(t@, rs@) =~= range_pieces(t@, old_rs).push(
                t@.subrange(start as int, i as int),
            ));
            start = i + 1;
            assert(t@.subrange(start as int, (i + 1) as int) =~= Seq::<char>::empty());
            assert(range_pieces(t@, rs@).push(t@.subrange(start as int, (i + 1) as int))
                == before.push(Seq::<char>::empty()));
        } else {
            assert(t@.subrange(start as int, i + 1) == t@.subrange(start as int, i as int).push(
                t@[i as int],
            ));
            assert(range_pieces(t@, rs@).push(t@.subrange(start as int, (i + 1) as int))
                == before.update(before.len() - 1, before.last().push(t@[i as int])));
        }
        i = i + 1;
    }
    let ghost old_rs = rs@;
    rs.push((start, t.len()));
    assert(range_pieces(t@, rs@) =~= range_pieces(t@, old_rs).push(
        t@.subrange(start as int, t.len() as int),
    ));
    assert(t@.take(t.len() as int) == t@);
    assert(range_pieces(t@, rs@) == split_on(t@, ';'));
    assert forall|k: int| 0 <= k < rs.len() implies #[trigger] rs@[k].0 <= rs@[k].1 && rs@[k].1 <= t.len() by {
        if k < old_rs.len() {
            assert(rs@[k] == old_rs[k]);
        }
    }
    rs
}

/// Whether the parser reaches the piece `ps[j]`: each piece before it is
/// empty or a command.
pub open spec fn piece_reached(ps: Seq<Seq<char>>, j: int) -> bool {
    forall|i: int|
        0 <= i < j ==> trim(#[trigger] ps[i]).len() == 0 || command_spec(trim(ps[i])) is Ok
}

/// Whether, of each of the first `n` pieces that the parser reaches and
/// reads as a token command, it knows the characters it tested (see
/// [`alnum_known`]).
pub open spec fn pieces_known(ps: Seq<Seq<char>>, n: int) -> bool {
    forall|j: int|
        0 <= j < n && piece_reached(ps, j) && trim(#[trigger] ps[j]).len() > 0 && first_arrow(
            trim(ps[j]),
        ) is None ==> alnum_known(trim(ps[j]))
}

/// Parses a whole program: the trimmed text must end in `';'`; it is split
/// at each `';'` and the non-empty pieces are parsed in order. Of the
/// characters it tests for being alphanumeric, an ASCII one is so exactly
/// when it is a letter or a digit.
pub fn parse_pcommands(src: &str) -> (r: Result<PCommands, ParseError>)
    ensures
        match r {
            Ok(cmds) => parse_spec(src@) == Ok::<Seq<Cmd>, Seq<char>>(cmds@),
            Err(e) => parse_spec(src@) == Err::<Seq<Cmd>, Seq<char>>(e@),
        },
        trim(src@).len() > 0 && trim(src@).last() == ';' ==> pieces_known(
            split_on(trim(src@), ';'),
            split_on(trim(src@), ';').len() as int,
        ),
{
    let trimmed = trim_str(src);
    let t = chars_of(trimmed);
    if !(t.len() > 0 && t[t.len() - 1] == ';') {
        return Err(message_with("Invalid command: '", trimmed, "'"));
    }
    let rs = split_ranges(&t);
    let ghost ps = split_on(t@, ';');
    assert(rs.len() == ps.len()) by {
        assert(range_pieces(t@, rs@).len() == rs.len());
    }
    let mut cmds: Vec<PCommand> = Vec::new();
    let mut k: usize = 0;
    assert(cmds_view(cmds@) =~= Seq::<Cmd>::empty());
    while k < rs.len()
        invariant
            k <= rs.len(),
            t@ == trimmed@,
            trimmed@ == trim(src@),
            t@.len() > 0,
            t@.last() == ';',
            ps == split_on(t@, ';'),
            ranges_within(rs@, t.len() as int),
            range_pieces(t@, rs@) == ps,
            parse_pieces(ps, k as int, cmds_view(cmds@)) == parse_pieces(ps, 0, Seq::empty()),
            piece_reached(ps, k as int),
            pieces_known(ps, k as int),
            rs.len() == ps.len(),
        decreases rs.len() - k,
    {
        let (a, b) = rs[k];
        assert(a <= b <= t.len()) by {
            assert(rs@[k as int].0 <= rs@[k as int].1);
        }
        let piece = trimmed.substring_char(a, b);
        assert(piece@ == ps[k as int]);
        let pcmd = trim_str(piece);
        let ghost acc = cmds_view(cmds@);
        if !pcmd.is_empty() {
            match parse_command(pcmd) {
                Ok(c) => {
                    cmds.push(c);
                    assert(cmds_view(cmds@) =~= acc.push(c@));
                },
                Err(e) => {
                    assert(parse_pieces(ps, k as int, acc) == Err::<Seq<Cmd>, Seq<char>>(e@));
                    assert(pieces_known(ps, ps.len() as int)) by {
                        assert forall|j: int|
                            0 <= j < ps.len() && piece_reached(ps, j) && trim(#[trigger] ps[j]).len()
                                > 0 && first_arrow(trim(ps[j])) is None implies alnum_known(
                            trim(ps[j]),
                        ) by {
                            if j > k {
                                assert(trim(ps[k as int]).len() > 0);
                                assert(command_spec(trim(ps[k as int])) is Err);
                            }
                        }
                    }
                    return Err(e);
                },
            }
        }
        assert(piece_reached(ps, k + 1)) by {
            assert forall|i: int| 0 <= i < k + 1 implies trim(#[trigger] ps[i]).len() == 0
                || command_spec(trim(ps[i])) is Ok by {
                if i < k {
                    assert(piece_reached(ps, k as int));
                }
            }
        }
        k = k + 1;
    }
    assert(cmds_view(Seq::<PCommand>::empty()) == Seq::<Cmd>::empty());
    Ok(PCommands(cmds))
}

impl std::str::FromStr for PCommands {
    type Err = ParseError;

    fn from_str(s: &str) -> (r: Result<PCommands, ParseError>)
        ensures
            match r {
                Ok(cmds) => parse_spec(s@) == Ok::<Seq<Cmd>, Seq<char>>(cmds@),
                Err(e) => parse_spec(s@) == Err::<Seq<Cmd>, Seq<char>>(e@),
            },
    {
        parse_pcommands(s)
    }
}

} // verus!
