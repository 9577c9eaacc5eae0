//! The command list that describes a Petri net: connections between places
//! and transitions, and token counts of places; its textual form.
use vstd::prelude::*;

use crate::text::{decimal, push_decimal};

verus! {

/// An error of parsing or rendering, with a human-readable message.
#[derive(Debug, Clone)]
pub struct ParseError {
    pub message: String,
}

impl View for ParseError {
    type V = Seq<char>;

    open spec fn view(&self) -> Seq<char> {
        self.message@
    }
}

impl ParseError {
    pub fn new(msg: String) -> (r: Self)
        ensures
            r@ == msg@,
    {
        ParseError { message: msg }
    }

    /// The text that `Display` shows: the message itself.
    pub fn to_text(&self) -> (r: String)
        ensures
            r@ == self@,
    {
        self.message.clone()
    }
}

/// One command of a Petri-net description.
#[derive(Debug, Clone, PartialEq, Eq)]
pub enum PCommand {
    /// An arc `from -> to` weighted by `amount`; exactly one end is a
    /// transition in well-formed input.
    Connection {
        from: String,
        to: String,
        amount: String,
        to_transition: bool,
        from_transition: bool,
    },
    /// `place` holds the given number of tokens.
    Token(String, usize),
}

/// The mathematical value of a [`PCommand`].
pub enum Cmd {
    Connection {
        from: Seq<char>,
        to: Seq<char>,
        amount: Seq<char>,
        to_transition: bool,
        from_transition: bool,
    },
    Token(Seq<char>, usize),
}

impl View for PCommand {
    type V = Cmd;

    open spec fn view(&self) -> Cmd {
        match self {
            PCommand::Connection { from, to, amount, to_transition, from_transition } => {
                Cmd::Connection {
                    from: from@,
                    to: to@,
                    amount: amount@,
                    to_transition: *to_transition,
                    from_transition: *from_transition,
                }
            },
            PCommand::Token(place, n) => Cmd::Token(place@, *n),
        }
    }
}

/// A list of commands, in the order they were written.
#[derive(Debug, Clone, PartialEq, Eq)]
pub struct PCommands(pub Vec<PCommand>);

/// The values of a list of commands.
pub open spec fn cmds_view(v: Seq<PCommand>) -> Seq<Cmd> {
    v.map_values(|c: PCommand| c@)
}

impl View for PCommands {
    type V = Seq<Cmd>;

    open spec fn view(&self) -> Seq<Cmd> {
        cmds_view(self.0@)
    }
}

impl Default for PCommands {
    fn default() -> (r: Self)
        ensures
            r@ == Seq::<Cmd>::empty(),
    {
        PCommands(Vec::new())
    }
}

/// The text of one command: `from -> [to] (amount);` for an arc into a
/// transition, `[from] -> to (amount);` for an arc out of one, and
/// `place (n);` for a token count.
pub open spec fn command_text(c: Cmd) -> Seq<char> {
    match c {
        Cmd::Connection { from, to, amount, to_transition, from_transition } => {
            if to_transition {
                from + " -> ["@ + to + "] ("@ + amount + ");"@
            } else if from_transition {
                "["@ + from + "] -> "@ + to + " ("@ + amount + ");"@
            } else {
                from + " -> "@ + to + " ("@ + amount + ");"@
            }
        },
        Cmd::Token(place, n) => place + " ("@ + decimal(n as nat) + ");"@,
    }
}

/// The text of a command list: each command's text on a line of its own.
pub open spec fn commands_text(cs: Seq<Cmd>) -> Seq<char>
    decreases cs.len(),
{
    if cs.len() == 0 {
        Seq::empty()
    } else {
        commands_text(cs.drop_last()) + command_text(cs.last()) + seq!['\n']
    }
}

impl PCommand {
    /// The text that `Display` shows for this command.
    pub fn to_text(&self) -> (r: String)
        ensures
            r@ == command_text(self@),
    {
        match self {
            PCommand::Connection { from, to, amount, to_transition, from_transition } => {
                if *to_transition {
                    let mut r = from.clone();
                    r.append(" -> [");
                    r.append(to.as_str());
                    r.append("] (");
                    r.append(amount.as_str());
                    r.append(");");
                    r
                } else if *from_transition {
                    let mut r = String::new();
                    r.append("[");
                    r.append(from.as_str());
                    r.append("] -> ");
                    r.append(to.as_str());
                    r.append(" (");
                    r.append(amount.as_str());
                    r.append(");");
                    r
                } else {
                    let mut r = from.clone();
                    r.append(" -> ");
                    r.append(to.as_str());
                    r.append(" (");
                    r.append(amount.as_str());
                    r.append(");");
                    r
                }
            },
            PCommand::Token(place, n) => {
                let mut r = place.clone();
                r.append(" (");
                push_decimal(&mut r, *n);
                r.append(");");
                r
            },
        }
    }
}

impl PCommands {
    /// The text that `Display` shows for the list.
    pub fn to_text(&self) -> (r: String)
        ensures
            r@ == commands_text(self@),
    {
        let mut r = String::new();
        let mut i: usize = 0;
        while i < self.0.len()
            invariant
                i <= self.0.len(),
                r@ == commands_text(cmds_view(self.0@.take(i as int))),
            decreases self.0.len() - i,
        {
            let line = self.0[i].to_text();
            r.append(line.as_str());
            r.push('\n');
            assert(cmds_view(self.0@.take(i + 1)).drop_last() == cmds_view(self.0@.take(i as int)));
            i = i + 1;
        }
        assert(self.0@.take(i as int) == self.0@);
        r
    }
}

} // verus!
