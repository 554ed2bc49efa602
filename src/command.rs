//! Commands, the compiled instruction stream, and the buffers they edit.
use vstd::prelude::*;

use crate::address::{resolved, slots_below, Address};
use crate::line::Line;
use crate::pattern::{regex_replaced, Pattern};
use crate::text::{chars_of, string_of};

verus! {

/// A command of the script.
#[derive(Debug, PartialEq)]
pub enum Command {
    /// `p`: prints the pattern buffer and a newline.
    Println,
    /// `P`: prints the pattern buffer.
    Print,
    /// `l`: prints the pattern buffer escaped, and a newline.
    Escapeln,
    /// `=`: prints the line number.
    LineNumber,
    /// A string literal, `n` or `t`: prints the text.
    Insert(String),
    /// `s/src/dst/[limit]`: replaces the first `limit` matches (all for `0`).
    Substitute(Pattern, String, usize),
    /// `k`: keeps the characters after the first `skip`, at most `take` of them.
    Keep(usize, Option<usize>),
    /// `h`: copies the pattern buffer into the hold buffer.
    Hold,
    /// `g`: copies the hold buffer into the pattern buffer.
    Get,
    /// `x`: swaps the two buffers.
    Exchange,
    /// `j`: appends a newline and the hold buffer to the pattern buffer.
    Joinln,
    /// `J`: appends the hold buffer to the pattern buffer.
    Join,
    /// `r [n]`: appends up to `n` more input lines, each after a newline.
    Readln(usize),
    /// `R`: replaces the current line by the next one.
    ReadReplace,
    /// `z`: empties the pattern buffer.
    Reset,
    /// `d`: empties the pattern buffer and keeps the line from being printed.
    Delete,
    /// `.`: leaves the innermost loop, or ends the work on this line.
    Break,
    /// `q [code]`: stops reading input.
    Quit(i32),
    /// `e`: runs the pattern buffer as a shell command and keeps its output.
    Eval,
    /// `:{ ... }`: runs its instructions again and again until a break.
    Loop(Vec<Action>),
}

/// One element of the compiled instruction stream.
#[derive(Debug, PartialEq)]
pub enum Action {
    /// Skips the next `usize` actions when the address does not select the line.
    Condition(Address, usize),
    Command(Command),
}

/// The control signal that commands hand back.
#[derive(Debug, Clone, Copy, PartialEq, Eq, Structural)]
pub enum Status {
    Normal,
    Break,
    NoPrint,
    Quit(i32),
}

/// The state a run edits: the current line, the pattern buffer and the hold buffer.
#[derive(Debug, PartialEq)]
pub struct Memory {
    pub line: Line,
    pub this: String,
    pub hold: String,
}

impl Default for Memory {
    fn default() -> (r: Memory)
        ensures
            r.line.0 == 0,
            r.line.1@ == Seq::<char>::empty(),
            r.this@ == Seq::<char>::empty(),
            r.hold@ == Seq::<char>::empty(),
    {
        Memory { line: Line::default(), this: String::new(), hold: String::new() }
    }
}

impl Memory {
    /// Makes `line` the current line and its text the pattern buffer.
    pub fn read(&mut self, line: Line)
        ensures
            final(self).line == line,
            final(self).this@ == line.1@,
            final(self).hold == old(self).hold,
    {
        self.this = line.1.clone();
        self.line = line;
    }
}

/// A well-formed instruction stream: each condition is followed by exactly the
/// commands it guards, its address has no placeholder left and its range slots
/// are below `n`, and the body of each loop is well formed too.
pub open spec fn wf_actions(acts: Seq<Action>, n: nat) -> bool
    decreases acts,
{
    forall|i: int|
        0 <= i < acts.len() ==> match #[trigger] acts[i] {
            Action::Condition(a, k) => i + k < acts.len() && slots_below(a, n) && resolved(a) && forall|
                j: int,
            | i < j <= i + k ==> acts[j] is Command,
            Action::Command(Command::Loop(body)) => wf_actions(body@, n),
            _ => true,
        }
}

/// The characters of `s` after the first `skip`, at most `take` of them.
pub open spec fn kept(s: Seq<char>, skip: nat, take: Option<usize>) -> Seq<char> {
    let from = if skip < s.len() { skip as int } else { s.len() as int };
    let to = match take {
        Some(t) => if from + t < s.len() { from + t } else { s.len() as int },
        None => s.len() as int,
    };
    s.subrange(from, to)
}

/// The commands that change only the two buffers.
pub open spec fn is_edit(c: Command) -> bool {
    match c {
        Command::Substitute(..) | Command::Keep(..) | Command::Hold | Command::Get
        | Command::Exchange | Command::Joinln | Command::Join | Command::Reset | Command::Delete
        | Command::Break | Command::Quit(_) => true,
        _ => false,
    }
}

/// The pattern buffer, hold buffer and status after an editing command.
pub open spec fn edited(c: Command, this: Seq<char>, hold: Seq<char>) -> (Seq<char>, Seq<char>, Status) {
    match c {
        Command::Substitute(p, t, limit) => (regex_replaced(p@, this, limit as nat, t@), hold, Status::Normal),
        Command::Keep(skip, take) => (kept(this, skip as nat, take), hold, Status::Normal),
        Command::Hold => (this, this, Status::Normal),
        Command::Get => (hold, hold, Status::Normal),
        Command::Exchange => (hold, this, Status::Normal),
        Command::Joinln => (this.push('\n') + hold, hold, Status::Normal),
        Command::Join => (this + hold, hold, Status::Normal),
        Command::Reset => (Seq::empty(), hold, Status::Normal),
        Command::Delete => (Seq::empty(), hold, Status::NoPrint),
        Command::Break => (this, hold, Status::Break),
        Command::Quit(code) => (this, hold, Status::Quit(code)),
        _ => (this, hold, Status::Normal),
    }
}

/// Keeps the characters of `s` after the first `skip`, at most `take` of them.
pub fn keep(s: &String, skip: usize, take: Option<usize>) -> (r: String)
    ensures
        r@ == kept(s@, skip as nat, take),
{
    let chars = chars_of(s.as_str());
    let from = if skip < chars.len() { skip } else { chars.len() };
    let to = match take {
        Some(t) => if t < chars.len() - from { from + t } else { chars.len() },
        None => chars.len(),
    };
    let mut out: Vec<char> = Vec::new();
    let mut i = from;
    while i < to
        invariant
            from <= i <= to <= chars.len(),
            out@ == chars@.subrange(from as int, i as int),
        decreases to - i,
    {
        out.push(chars[i]);
        i = i + 1;
        assert(out@ =~= chars@.subrange(from as int, i as int));
    }
    string_of(&out)
}

impl Command {
    /// Applies a command that changes only the buffers, and returns its status.
    pub fn edit(&self, memory: &mut Memory) -> (s: Status)
        requires
            is_edit(*self),
        ensures
            (final(memory).this@, final(memory).hold@, s) == edited(
                *self,
                old(memory).this@,
                old(memory).hold@,
            ),
            final(memory).line == old(memory).line,
    {
        match self {
            Command::Substitute(p, t, limit) => {
                memory.this = p.replacen(memory.this.as_str(), *limit, t.as_str());
                Status::Normal
            },
            Command::Keep(skip, take) => {
                memory.this = keep(&memory.this, *skip, *take);
                Status::Normal
            },
            Command::Hold => {
                memory.hold = memory.this.clone();
                Status::Normal
            },
            Command::Get => {
                memory.this = memory.hold.clone();
                Status::Normal
            },
            Command::Exchange => {
                std::mem::swap(&mut memory.this, &mut memory.hold);
                Status::Normal
            },
            Command::Joinln => {
                crate::text::push(&mut memory.this, '\n');
                memory.this.append(memory.hold.as_str());
                Status::Normal
            },
            Command::Join => {
                memory.this.append(memory.hold.as_str());
                Status::Normal
            },
            Command::Reset => {
                memory.this = String::new();
                Status::Normal
            },
            Command::Delete => {
                memory.this = String::new();
                Status::NoPrint
            },
            Command::Break => Status::Break,
            Command::Quit(code) => Status::Quit(*code),
            _ => Status::Normal,
        }
    }
}

} // verus!
