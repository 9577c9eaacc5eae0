//! Rendering a Petri net as a Graphviz DOT graph.
use vstd::prelude::*;

use crate::command::{cmds_view, Cmd, PCommand, PCommands, ParseError};
use crate::text::{replace_all, replace_str, star_string, stars};

verus! {

/// What `format!("{:?}", s)` writes for a string `s`: the string in double
/// quotes, with quotes, backslashes and non-printable characters escaped.
pub uninterp spec fn debug_form(s: Seq<char>) -> Seq<char>;

/// Whether every character of `s` is printable ASCII (space to `~`) other
/// than a double quote, a single quote or a backslash: characters that
/// `Debug` writes as they are.
pub open spec fn plain_printable(s: Seq<char>) -> bool {
    forall|i: int|
        0 <= i < s.len() ==> {
            let n = #[trigger] s[i] as u32;
            0x20 <= n <= 0x7e && n != 0x22 && n != 0x27 && n != 0x5c
        }
}

/// `s` in double quotes.
pub open spec fn quoted(s: Seq<char>) -> Seq<char> {
    seq!['"'] + s + seq!['"']
}

/// Calls `<str as Debug>::fmt` through `format!`. The contract claims that
/// the result is fixed by the string, and names it; for a string of
/// printable ASCII without quotes or backslashes, none of which
/// `char::escape_debug` escapes, it is the string in double quotes. The
/// escaping of other characters, and the Unicode tables behind it, are not
/// restated.
#[verifier::external_body]
fn debug_string(s: &String) -> (r: String)
    ensures
        r@ == debug_form(s@),
        plain_printable(s@) ==> r@ == quoted(s@),
{
    format!("{:?}", s)
}

/// The line for an arc from the place `from` into the transition `to`.
pub open spec fn arc_into_line(from: Seq<char>, to: Seq<char>, amount: Seq<char>) -> Seq<char> {
    debug_form(from) + "[label=\""@ + from + "\"]; "@ + debug_form(from) + " -> "@ + debug_form(to)
        + " [label=\""@ + amount + "\"]; "@ + debug_form(to) + "[label=\""@ + to
        + "\",group=\"transition\"];\n"@
}

/// The line for an arc from the transition `from` to the place `to`.
pub open spec fn arc_out_line(from: Seq<char>, to: Seq<char>, amount: Seq<char>) -> Seq<char> {
    debug_form(from) + "[label=\""@ + from + "\",group=\"transition\"]; "@ + debug_form(from)
        + " -> "@ + debug_form(to) + " [label=\""@ + amount + "\"]; "@ + debug_form(to)
        + "[label=\""@ + to + "\"];\n"@
}

/// The label attribute of a node.
pub open spec fn label_of(name: Seq<char>) -> Seq<char> {
    "[label=\""@ + name + "\"]"@
}

/// The graph for `cs[i..]`, after the earlier commands gave the lines
/// `lines`, the places `places` and the transitions `transitions`:
///
/// - an arc into a transition adds its line and declares its place and
///   its transition;
/// - an arc out of a transition adds its line if the transition was
///   declared, and fails otherwise;
/// - an arc with both ends or no end a transition fails;
/// - a token count marks every label of its place, declared before, with
///   one star per token, and fails for an undeclared place.
pub open spec fn dot_from(
    cs: Seq<Cmd>,
    i: int,
    lines: Seq<char>,
    places: Seq<Seq<char>>,
    transitions: Seq<Seq<char>>,
) -> Result<Seq<char>, Seq<char>>
    decreases cs.len() - i,
{
    if i < 0 || i >= cs.len() {
        Ok("digraph G {\n"@ + lines + "}"@)
    } else {
        match cs[i] {
            Cmd::Connection { from, to, amount, to_transition, from_transition } => {
                if to_transition && !from_transition {
                    dot_from(
                        cs,
                        i + 1,
                        lines + arc_into_line(from, to, amount),
                        places.push(from),
                        transitions.push(to),
                    )
                } else if !to_transition && from_transition {
                    if transitions.contains(from) {
                        dot_from(
                            cs,
                            i + 1,
                            lines + arc_out_line(from, to, amount),
                            places,
                            transitions,
                        )
                    } else {
                        Err("Transition '"@ + from + "' doesn't have an entry"@)
                    }
                } else {
                    Err("Invalid connection: both ends cannot be transitions"@)
                }
            },
            Cmd::Token(place, n) => {
                if places.contains(place) {
                    dot_from(
                        cs,
                        i + 1,
                        replace_all(
                            lines,
                            label_of(place),
                            label_of(place + stars(n as nat)),
                        ),
                        places,
                        transitions,
                    )
                } else {
                    Err("Place '"@ + place + "' doesn't exist in the petrinet"@)
                }
            },
        }
    }
}

/// The DOT graph of a command list, or the first error.
pub open spec fn dot_spec(cs: Seq<Cmd>) -> Result<Seq<char>, Seq<char>> {
    dot_from(cs, 0, Seq::empty(), Seq::empty(), Seq::empty())
}

/// The names as values.
pub open spec fn names_view(v: Seq<String>) -> Seq<Seq<char>> {
    v.map_values(|s: String| s@)
}

pub(crate) fn contains_name(v: &Vec<String>, name: &String) -> (r: bool)
    ensures
        r == names_view(v@).contains(name@),
{
    let mut i: usize = 0;
    while i < v.len()
        invariant
            i <= v.len(),
            forall|k: int| 0 <= k < i ==> names_view(v@)[k] != name@,
        decreases v.len() - i,
    {
        if v[i] == *name {
            assert(names_view(v@)[i as int] == name@);
            return true;
        }
        i = i + 1;
    }
    false
}

fn label_string(name: &String, extra: &String) -> (r: String)
    ensures
        r@ == label_of(name@ + extra@),
{
    let mut r = String::from_str("[label=\"");
    r.append(name.as_str());
    r.append(extra.as_str());
    r.append("\"]");
    assert(r@ == "[label=\""@ + (name@ + extra@) + "\"]"@);
    r
}

fn append_arc_into(lines: &mut String, from: &String, to: &String, amount: &String)
    ensures
        final(lines)@ == old(lines)@ + arc_into_line(from@, to@, amount@),
        plain_printable(from@) ==> debug_form(from@) == quoted(from@),
        plain_printable(to@) ==> debug_form(to@) == quoted(to@),
{
    let ghost l0 = lines@;
    let from_dbg = debug_string(from);
    let to_dbg = debug_string(to);
    lines.append(from_dbg.as_str());
    lines.append("[label=\"");
    lines.append(from.as_str());
    lines.append("\"]; ");
    lines.append(from_dbg.as_str());
    lines.append(" -> ");
    lines.append(to_dbg.as_str());
    lines.append(" [label=\"");
    lines.append(amount.as_str());
    lines.append("\"]; ");
    lines.append(to_dbg.as_str());
    lines.append("[label=\"");
    lines.append(to.as_str());
    lines.append("\",group=\"transition\"];\n");
    assert(lines@ =~= l0 + arc_into_line(from@, to@, amount@));
}

fn append_arc_out(lines: &mut String, from: &String, to: &String, amount: &String)
    ensures
        final(lines)@ == old(lines)@ + arc_out_line(from@, to@, amount@),
        plain_printable(from@) ==> debug_form(from@) == quoted(from@),
        plain_printable(to@) ==> debug_form(to@) == quoted(to@),
{
    let ghost l0 = lines@;
    let from_dbg = debug_string(from);
    let to_dbg = debug_string(to);
    lines.append(from_dbg.as_str());
    lines.append("[label=\"");
    lines.append(from.as_str());
    lines.append("\",group=\"transition\"]; ");
    lines.append(from_dbg.as_str());
    lines.append(" -> ");
    lines.append(to_dbg.as_str());
    lines.append(" [label=\"");
    lines.append(amount.as_str());
    lines.append("\"]; ");
    lines.append(to_dbg.as_str());
    lines.append("[label=\"");
    lines.append(to.as_str());
    lines.append("\"];\n");
    assert(lines@ =~= l0 + arc_out_line(from@, to@, amount@));
}

/// Whether the `Debug` form of each name of an arc of `cs` that is plain
/// printable ASCII is that name in double quotes.
pub open spec fn names_quoted(cs: Seq<Cmd>, n: int) -> bool {
    forall|k: int|
        0 <= k < n ==> (#[trigger] cs[k] matches Cmd::Connection { from, to, .. } ==> (
        plain_printable(from) ==> debug_form(from) == quoted(from)) && (plain_printable(to)
            ==> debug_form(to) == quoted(to)))
}

/// Renders the net as a DOT graph: see [`dot_from`]. Where it succeeds, the
/// node names that are plain printable ASCII are written in double quotes.
pub fn dot(pcmds: PCommands) -> (r: Result<String, ParseError>)
    ensures
        match r {
            Ok(s) => dot_spec(pcmds@) == Ok::<Seq<char>, Seq<char>>(s@),
            Err(e) => dot_spec(pcmds@) == Err::<Seq<char>, Seq<char>>(e@),
        },
        r is Ok ==> names_quoted(pcmds@, pcmds@.len() as int),
{
    let cmds = &pcmds.0;
    let ghost cs = cmds_view(cmds@);
    let mut lines = String::new();
    let mut valid_transitions: Vec<String> = Vec::new();
    let mut valid_places: Vec<String> = Vec::new();
    assert(names_view(valid_places@) =~= Seq::<Seq<char>>::empty());
    assert(names_view(valid_transitions@) =~= Seq::<Seq<char>>::empty());
    let mut i: usize = 0;
    while i < cmds.len()
        invariant
            i <= cmds.len(),
            cs == cmds_view(cmds@),
            cs == pcmds@,
            dot_from(
                cs,
                i as int,
                lines@,
                names_view(valid_places@),
                names_view(valid_transitions@),
            ) == dot_spec(cs),
            names_quoted(cs, i as int),
        decreases cmds.len() - i,
    {
        match &cmds[i] {
            PCommand::Connection { from, to, amount, to_transition, from_transition } => {
                if *to_transition && !*from_transition {
                    append_arc_into(&mut lines, from, to, amount);
                    let ghost p0 = names_view(valid_places@);
                    let ghost t0 = names_view(valid_transitions@);
                    valid_places.push(from.clone());
                    valid_transitions.push(to.clone());
                    assert(names_view(valid_places@) =~= p0.push(from@));
                    assert(names_view(valid_transitions@) =~= t0.push(to@));
                } else if !*to_transition && *from_transition {
                    if contains_name(&valid_transitions, from) {
                        append_arc_out(&mut lines, from, to, amount);
                    } else {
                        let mut m = String::from_str("Transition '");
                        m.append(from.as_str());
                        m.append("' doesn't have an entry");
                        return Err(ParseError::new(m));
                    }
                } else {
                    return Err(
                        ParseError::new(
                            String::from_str("Invalid connection: both ends cannot be transitions"),
                        ),
                    );
                }
            },
            PCommand::Token(place, n) => {
                if contains_name(&valid_places, place) {
                    let none = String::new();
                    let pattern = label_string(place, &none);
                    let marks = star_string(*n);
                    let replacement = label_string(place, &marks);
                    assert(place@ + none@ == place@);
                    proof {
                        reveal_strlit("[label=\"");
                    }
                    lines = replace_str(lines.as_str(), pattern.as_str(), replacement.as_str());
                } else {
                    let mut m = String::from_str("Place '");
                    m.append(place.as_str());
                    m.append("' doesn't exist in the petrinet");
                    return Err(ParseError::new(m));
                }
            },
        }
        assert(names_quoted(cs, i + 1)) by {
            assert forall|k: int| 0 <= k < i + 1 implies (#[trigger] cs[k] matches Cmd::Connection {
                from,
                to,
                ..
            } ==> (plain_printable(from) ==> debug_form(from) == quoted(from)) && (plain_printable(
                to,
            ) ==> debug_form(to) == quoted(to))) by {
                if k < i {
                    assert(names_quoted(cs, i as int));
                }
            }
        }
        i = i + 1;
    }
    let mut out = String::from_str("digraph G {\n");
    out.append(lines.as_str());
    out.append("}");
    Ok(out)
}

} // verus!
