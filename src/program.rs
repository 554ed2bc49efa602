//! The execution engine.
//!
//! A run alternates between decisions, which this module makes, and outside
//! work (reading a line, writing text, running the shell), which the caller
//! does. `Program::run` takes one event, makes one step, and hands back a
//! request that says what outside work comes next. Each step does a bounded
//! amount of work, so a script that loops forever still gives control back
//! to the caller after every instruction.
use vstd::prelude::*;

use crate::address::{selects, Address};
use crate::command::{edited, wf_actions, Action, Command, Memory, Status};
use crate::compile::{
    instruction, lemma_stream_push, lemma_wf_grow, parse_instruction, push_instruction, spelled,
    spelled_all, steps_of, stream, Instr, Step, Token,
};
use crate::error::{fault_of, Error, Fault};
use crate::line::Line;
use crate::parse_address::{shaped, Shape};
use crate::reader::{skip_spaces, Reader};
use crate::text::{decimal_text, escaped};

verus! {

/// Where a run stands.
#[derive(Debug, Clone, Copy, PartialEq, Eq, Structural)]
pub enum Stage {
    /// Not started.
    Start,
    /// Waiting for the next input line.
    AwaitLine,
    /// Running the instructions on the current line.
    Body,
    /// The line was printed; deciding whether to read on.
    AfterPrint,
    /// Running the finalize block from this command on.
    Finally(usize),
    /// Over.
    Done,
}

/// Outside work that a command is waiting for.
#[derive(Debug, Clone, Copy, PartialEq, Eq, Structural)]
pub enum Pending {
    Nothing,
    /// `r`: this many more lines may still be appended.
    Lines(usize),
    /// `R`: the line that replaces the current one.
    Replace,
    /// `e`: the output of the shell.
    Shell,
}

/// What the caller reports to the engine.
#[derive(Debug)]
pub enum Event {
    /// Starts the run; the flag says whether each line is printed at its end.
    Start(bool),
    /// The outside work asked for is done, or there was none.
    Resume,
    /// The next input line, or `None` at the end of the input.
    Input(Option<Line>),
    /// The standard output of the shell command and its exit code (`None`
    /// when no code was reported).
    Evaluated(String, Option<i32>),
}

/// What the engine asks the caller to do before the next step.
#[derive(Debug, PartialEq)]
pub enum Request {
    /// Read the next input line and report it with `Event::Input`.
    Read,
    /// Write this text to the output, then report `Event::Resume`.
    Write(String),
    /// Run this text with the shell and report `Event::Evaluated`.
    Eval(String),
    /// Nothing to do: report `Event::Resume`.
    Continue,
    /// The run is over, with this status and this number of matched lines.
    Finish(Status, usize),
}

/// A `Request` with its texts as sequences of characters.
pub enum Reply {
    Read,
    Write(Seq<char>),
    Eval(Seq<char>),
    Continue,
    Finish(Status, nat),
}

impl View for Request {
    type V = Reply;

    open spec fn view(&self) -> Reply {
        match self {
            Request::Read => Reply::Read,
            Request::Write(t) => Reply::Write(t@),
            Request::Eval(t) => Reply::Eval(t@),
            Request::Continue => Reply::Continue,
            Request::Finish(s, n) => Reply::Finish(*s, *n as nat),
        }
    }
}

/// The state of a run, as contracts describe it.
pub struct Engine {
    pub actions: Seq<Action>,
    pub finally: Seq<Command>,
    pub ranges: Seq<bool>,
    pub index: nat,
    pub text: Seq<char>,
    pub this: Seq<char>,
    pub hold: Seq<char>,
    pub print_all: bool,
    pub stage: Stage,
    pub frames: Seq<usize>,
    pub pending: Pending,
    pub status: Status,
    pub matched: bool,
    pub matches: nat,
}

/// The instruction list that frame `d` runs: the program body for the
/// outermost frame, else the body of the loop command that the frame
/// around it stands on.
pub open spec fn body_at(acts: Seq<Action>, frames: Seq<usize>, d: nat) -> Seq<Action>
    decreases d,
{
    if d == 0 {
        acts
    } else {
        let parent = body_at(acts, frames, (d - 1) as nat);
        let k = frames[d - 1] as int;
        if 0 <= k < parent.len() {
            match parent[k] {
                Action::Command(Command::Loop(b)) => b@,
                _ => Seq::empty(),
            }
        } else {
            Seq::empty()
        }
    }
}

/// Every frame but the innermost stands on a loop command of its list, and
/// the innermost one lies within its list or just after it.
pub open spec fn frames_ok(acts: Seq<Action>, frames: Seq<usize>) -> bool {
    &&& frames.len() >= 1
    &&& forall|d: nat|
        d + 1 < frames.len() ==> {
            let b = #[trigger] body_at(acts, frames, d);
            frames[d as int] < b.len() && b[frames[d as int] as int] matches Action::Command(
                Command::Loop(_),
            )
        }
    &&& frames.last() <= body_at(acts, frames, (frames.len() - 1) as nat).len()
}

/// The state after a line's work ends with status `st`: the line counts as
/// matched if a condition selected it or a command signalled; a deleted line
/// is not printed; otherwise it is printed when every line is.
pub open spec fn end_line(s: Engine, st: Status) -> (Engine, Reply) {
    let counted = s.matched || st != Status::Normal;
    let s1 = Engine {
        status: st,
        frames: Seq::empty(),
        matches: if counted && s.matches < usize::MAX { s.matches + 1 } else { s.matches },
        ..s
    };
    if st == Status::NoPrint {
        (Engine { stage: Stage::AwaitLine, ..s1 }, Reply::Read)
    } else if s.print_all {
        (Engine { stage: Stage::AfterPrint, ..s1 }, Reply::Write(s.this.push('\n')))
    } else {
        after_print(s1)
    }
}

/// After a line: a quit goes to the finalize block, anything else reads on.
pub open spec fn after_print(s: Engine) -> (Engine, Reply) {
    if s.status is Quit {
        (Engine { stage: Stage::Finally(0), ..s }, Reply::Continue)
    } else {
        (Engine { stage: Stage::AwaitLine, ..s }, Reply::Read)
    }
}

/// The end of the run.
pub open spec fn finish(s: Engine) -> (Engine, Reply) {
    (Engine { stage: Stage::Done, ..s }, Reply::Finish(s.status, s.matches))
}

/// What a status that a command hands back does. In the finalize block any
/// status but `Normal` ends the run with it. In the body, a break leaves the
/// innermost loop, and anything else ends the work on the line.
pub open spec fn outcome(s: Engine, st: Status) -> (Engine, Reply) {
    if st == Status::Normal {
        (s, Reply::Continue)
    } else if s.stage is Finally {
        finish(Engine { status: st, ..s })
    } else if st == Status::Break && s.frames.len() > 1 {
        let d = s.frames.len() - 1;
        (
            Engine { frames: s.frames.drop_last().update(d - 1, (s.frames[d - 1] + 1) as usize), ..s },
            Reply::Continue,
        )
    } else {
        end_line(s, st)
    }
}

/// Running one command (not a loop) whose position is already passed.
pub open spec fn execute(s: Engine, c: Command) -> (Engine, Reply) {
    match c {
        Command::Println => (s, Reply::Write(s.this.push('\n'))),
        Command::Print => (s, Reply::Write(s.this)),
        Command::Escapeln => (s, Reply::Write(escaped(s.this).push('\n'))),
        Command::LineNumber => (s, Reply::Write(decimal_text(s.index))),
        Command::Insert(t) => (s, Reply::Write(t@)),
        Command::Readln(n) => if n == 0 {
            (s, Reply::Continue)
        } else {
            (Engine { pending: Pending::Lines(n), ..s }, Reply::Read)
        },
        Command::ReadReplace => (Engine { pending: Pending::Replace, ..s }, Reply::Read),
        Command::Eval => (Engine { pending: Pending::Shell, ..s }, Reply::Eval(s.this)),
        Command::Loop(_) => (s, Reply::Continue),
        _ => {
            let (t, h, st) = edited(c, s.this, s.hold);
            outcome(Engine { this: t, hold: h, ..s }, st)
        },
    }
}

/// One step of the instructions on the current line.
pub open spec fn dispatch(s: Engine) -> (Engine, Reply) {
    let d = (s.frames.len() - 1) as nat;
    let body = body_at(s.actions, s.frames, d);
    let pos = s.frames[d as int];
    if pos >= body.len() {
        if d == 0 {
            end_line(s, Status::Normal)
        } else {
            (Engine { frames: s.frames.update(d as int, 0), ..s }, Reply::Continue)
        }
    } else {
        match body[pos as int] {
            Action::Condition(a, k) => {
                let (m, st) = selects(a, s.index, s.text, s.ranges);
                let next = if m { pos + 1 } else { pos + k + 1 };
                (
                    Engine {
                        ranges: st,
                        matched: s.matched || m,
                        frames: s.frames.update(d as int, next as usize),
                        ..s
                    },
                    Reply::Continue,
                )
            },
            Action::Command(Command::Loop(_)) => (Engine { frames: s.frames.push(0), ..s }, Reply::Continue),
            Action::Command(c) => execute(
                Engine { frames: s.frames.update(d as int, (pos + 1) as usize), ..s },
                c,
            ),
        }
    }
}

/// The exit code of the shell as a status: `0` is no special status, any
/// other code quits with it, and no code at all quits with `0`.
pub open spec fn shell_status(code: Option<i32>) -> Status {
    match code {
        Some(0) => Status::Normal,
        Some(c) => Status::Quit(c),
        None => Status::Quit(0),
    }
}

/// The answer to a command's outside work. An event of another kind than the
/// one awaited repeats the request.
pub open spec fn complete(s: Engine, e: Event) -> (Engine, Reply) {
    match s.pending {
        Pending::Lines(k) => match e {
            Event::Input(Some(l)) => {
                let s1 = Engine { this: s.this.push('\n') + l.1@, ..s };
                if k > 1 {
                    (Engine { pending: Pending::Lines((k - 1) as usize), ..s1 }, Reply::Read)
                } else {
                    (Engine { pending: Pending::Nothing, ..s1 }, Reply::Continue)
                }
            },
            Event::Input(None) => (Engine { pending: Pending::Nothing, ..s }, Reply::Continue),
            _ => (s, Reply::Read),
        },
        Pending::Replace => match e {
            Event::Input(Some(l)) => (
                Engine { pending: Pending::Nothing, index: l.0 as nat, text: l.1@, this: l.1@, ..s },
                Reply::Continue,
            ),
            Event::Input(None) => outcome(Engine { pending: Pending::Nothing, ..s }, Status::Break),
            _ => (s, Reply::Read),
        },
        _ => match e {
            Event::Evaluated(out, code) => outcome(
                Engine { pending: Pending::Nothing, this: out@, ..s },
                shell_status(code),
            ),
            _ => (s, Reply::Eval(s.this)),
        },
    }
}

/// One step of a run: the state after event `e`, and the request for the caller.
pub open spec fn step(s: Engine, e: Event) -> (Engine, Reply) {
    if s.pending != Pending::Nothing && (s.stage is Body || s.stage is Finally) {
        complete(s, e)
    } else {
        match s.stage {
            Stage::Start => {
                let all = match e {
                    Event::Start(a) => a,
                    _ => s.print_all,
                };
                (Engine { print_all: all, stage: Stage::AwaitLine, ..s }, Reply::Read)
            },
            Stage::AwaitLine => match e {
                Event::Input(Some(l)) => (
                    Engine {
                        index: l.0 as nat,
                        text: l.1@,
                        this: l.1@,
                        status: Status::Normal,
                        matched: false,
                        frames: seq![0usize],
                        stage: Stage::Body,
                        ..s
                    },
                    Reply::Continue,
                ),
                Event::Input(None) => (Engine { stage: Stage::Finally(0), ..s }, Reply::Continue),
                _ => (s, Reply::Read),
            },
            Stage::Body => dispatch(s),
            Stage::AfterPrint => after_print(s),
            Stage::Finally(i) => if i >= s.finally.len() {
                finish(s)
            } else {
                execute(Engine { stage: Stage::Finally((i + 1) as usize), ..s }, s.finally[i as int])
            },
            Stage::Done => (s, Reply::Finish(s.status, s.matches)),
        }
    }
}

pub proof fn lemma_body_at_prefix(acts: Seq<Action>, f1: Seq<usize>, f2: Seq<usize>, d: nat)
    requires
        forall|i: int| 0 <= i < d ==> f1[i] == f2[i],
    ensures
        body_at(acts, f1, d) == body_at(acts, f2, d),
    decreases d,
{
    if d > 0 {
        lemma_body_at_prefix(acts, f1, f2, (d - 1) as nat);
    }
}

proof fn lemma_body_len(acts: Seq<Action>, frames: Seq<usize>, d: nat)
    requires
        acts.len() <= usize::MAX,
    ensures
        body_at(acts, frames, d).len() <= usize::MAX,
    decreases d,
{
    if d > 0 {
        lemma_body_len(acts, frames, (d - 1) as nat);
        let parent = body_at(acts, frames, (d - 1) as nat);
        let k = frames[d - 1] as int;
        if 0 <= k < parent.len() {
            if let Action::Command(Command::Loop(b)) = parent[k] {
                assert(b@.len() == b.len());
            }
        }
    }
}

proof fn lemma_body_wf(acts: Seq<Action>, frames: Seq<usize>, d: nat, n: nat)
    requires
        wf_actions(acts, n),
    ensures
        wf_actions(body_at(acts, frames, d), n),
    decreases d,
{
    if d > 0 {
        lemma_body_wf(acts, frames, (d - 1) as nat, n);
        let parent = body_at(acts, frames, (d - 1) as nat);
        let k = frames[d - 1] as int;
        if 0 <= k < parent.len() {
            if let Action::Command(Command::Loop(b)) = parent[k] {
                assert(wf_actions(b@, n));
            }
        }
    }
}

/// The finalize block holds no loop.
pub open spec fn loop_free(cmds: Seq<Command>) -> bool {
    forall|i: int| 0 <= i < cmds.len() ==> !(#[trigger] cmds[i] is Loop)
}

/// The compiled script.
struct Code {
    actions: Vec<Action>,
    finally: Vec<Command>,
}

/// The state of a run besides the compiled script.
struct Run {
    ranges: Vec<bool>,
    memory: Memory,
    print_all: bool,
    stage: Stage,
    frames: Vec<usize>,
    pending: Pending,
    status: Status,
    matched: bool,
    matches: usize,
}

spec fn engine(code: &Code, r: &Run) -> Engine {
    Engine {
        actions: code.actions@,
        finally: code.finally@,
        ranges: r.ranges@,
        index: r.memory.line.0 as nat,
        text: r.memory.line.1@,
        this: r.memory.this@,
        hold: r.memory.hold@,
        print_all: r.print_all,
        stage: r.stage,
        frames: r.frames@,
        pending: r.pending,
        status: r.status,
        matched: r.matched,
        matches: r.matches as nat,
    }
}

spec fn wf(code: &Code, r: &Run) -> bool {
    &&& wf_actions(code.actions@, r.ranges.len() as nat)
    &&& loop_free(code.finally@)
    &&& r.stage is Body ==> frames_ok(code.actions@, r.frames@)
}

/// The instruction list of frame `d`.
fn body_ref<'a>(acts: &'a Vec<Action>, frames: &Vec<usize>, d: usize) -> (r: &'a Vec<Action>)
    requires
        frames_ok(acts@, frames@),
        d < frames.len(),
    ensures
        r@ == body_at(acts@, frames@, d as nat),
    decreases d,
{
    if d == 0 {
        acts
    } else {
        let parent = body_ref(acts, frames, d - 1);
        let k = frames[d - 1];
        assert(body_at(acts@, frames@, (d - 1) as nat) == parent@);
        match &parent[k] {
            Action::Command(Command::Loop(b)) => b,
            _ => {
                assert(false);
                acts
            },
        }
    }
}

impl Run {
    fn finish(&mut self, Ghost(code): Ghost<&Code>) -> (r: Request)
        requires
            wf(code, old(self)),
        ensures
            wf(code, final(self)),
            (engine(code, final(self)), r@) == finish(engine(code, old(self))),
    {
        self.stage = Stage::Done;
        Request::Finish(self.status, self.matches)
    }

    fn after_print(&mut self, Ghost(code): Ghost<&Code>) -> (r: Request)
        requires
            wf(code, old(self)),
            !(old(self).stage is Body),
        ensures
            wf(code, final(self)),
            (engine(code, final(self)), r@) == after_print(engine(code, old(self))),
    {
        if let Status::Quit(_) = self.status {
            self.stage = Stage::Finally(0);
            Request::Continue
        } else {
            self.stage = Stage::AwaitLine;
            Request::Read
        }
    }

    fn end_line(&mut self, st: Status, Ghost(code): Ghost<&Code>) -> (r: Request)
        requires
            wf(code, old(self)),
        ensures
            wf(code, final(self)),
            (engine(code, final(self)), r@) == end_line(engine(code, old(self)), st),
    {
        let counted = self.matched || st != Status::Normal;
        self.status = st;
        self.frames = Vec::new();
        if counted && self.matches < usize::MAX {
            self.matches = self.matches + 1;
        }
        if st == Status::NoPrint {
            self.stage = Stage::AwaitLine;
            Request::Read
        } else if self.print_all {
            self.stage = Stage::AfterPrint;
            let mut text = self.memory.this.clone();
            crate::text::push(&mut text, '\n');
            Request::Write(text)
        } else {
            self.stage = Stage::AfterPrint;
            self.after_print(Ghost(code))
        }
    }
}

impl Run {
    fn outcome(&mut self, st: Status, Ghost(code): Ghost<&Code>) -> (r: Request)
        requires
            wf(code, old(self)),
            old(self).stage is Body || old(self).stage is Finally,
        ensures
            wf(code, final(self)),
            (engine(code, final(self)), r@) == outcome(engine(code, old(self)), st),
    {
        if st == Status::Normal {
            Request::Continue
        } else if let Stage::Finally(_) = self.stage {
            self.status = st;
            self.finish(Ghost(code))
        } else if st == Status::Break && self.frames.len() > 1 {
            let ghost f1 = self.frames@;
            let ghost acts = code.actions@;
            self.frames.pop();
            let d = self.frames.len() - 1;
            let p = self.frames[d];
            proof {
                if self.stage is Body {
                    assert(body_at(acts, f1, d as nat)[f1[d as int] as int] is Command);
                    assert(code.actions@.len() == code.actions.len());
                    lemma_body_len(acts, f1, d as nat);
                }
            }
            self.frames.set(d, p + 1);
            proof {
                let f2 = self.frames@;
                assert(f2 == f1.drop_last().update(d as int, (f1[d as int] + 1) as usize));
                if self.stage is Body {
                    assert forall|e: nat| e + 1 < f2.len() implies {
                        let b = #[trigger] body_at(acts, f2, e);
                        f2[e as int] < b.len() && b[f2[e as int] as int] matches Action::Command(
                            Command::Loop(_),
                        )
                    } by {
                        lemma_body_at_prefix(acts, f1, f2, e);
                        assert(body_at(acts, f1, e) == body_at(acts, f1, e));
                    }
                    lemma_body_at_prefix(acts, f1, f2, d as nat);
                    assert(body_at(acts, f1, d as nat) == body_at(acts, f1, d as nat));
                }
            }
            Request::Continue
        } else {
            self.end_line(st, Ghost(code))
        }
    }

    fn execute(&mut self, c: &Command, Ghost(code): Ghost<&Code>) -> (r: Request)
        requires
            wf(code, old(self)),
            old(self).stage is Body || old(self).stage is Finally,
        ensures
            wf(code, final(self)),
            (engine(code, final(self)), r@) == execute(engine(code, old(self)), *c),
    {
        match c {
            Command::Println => {
                let mut text = self.memory.this.clone();
                crate::text::push(&mut text, '\n');
                Request::Write(text)
            },
            Command::Print => Request::Write(self.memory.this.clone()),
            Command::Escapeln => {
                let mut text = crate::text::escape_default(self.memory.this.as_str());
                crate::text::push(&mut text, '\n');
                Request::Write(text)
            },
            Command::LineNumber => Request::Write(
                crate::text::string_of(&crate::text::number_text(self.memory.line.0)),
            ),
            Command::Insert(t) => Request::Write(t.clone()),
            Command::Readln(n) => {
                if *n == 0 {
                    Request::Continue
                } else {
                    self.pending = Pending::Lines(*n);
                    Request::Read
                }
            },
            Command::ReadReplace => {
                self.pending = Pending::Replace;
                Request::Read
            },
            Command::Eval => {
                self.pending = Pending::Shell;
                Request::Eval(self.memory.this.clone())
            },
            Command::Loop(_) => Request::Continue,
            _ => {
                let st = c.edit(&mut self.memory);
                self.outcome(st, Ghost(code))
            },
        }
    }
}

/// A loop whose body is a lone break runs that body once and goes on after
/// the loop: two steps, whatever the events, take the run past it with
/// nothing else changed.
pub proof fn lemma_break_loop_runs_once(s: Engine, e1: Event, e2: Event)
    requires
        s.stage == Stage::Body,
        s.pending == Pending::Nothing,
        frames_ok(s.actions, s.frames),
        ({
            let d = (s.frames.len() - 1) as nat;
            let body = body_at(s.actions, s.frames, d);
            let pos = s.frames[d as int];
            &&& pos < body.len()
            &&& body[pos as int] matches Action::Command(Command::Loop(_))
            &&& body[pos as int]->Command_0->Loop_0@ == seq![Action::Command(Command::Break)]
        }),
    ensures
        ({
            let d = s.frames.len() - 1;
            let (s1, r1) = step(s, e1);
            let (s2, r2) = step(s1, e2);
            r1 == Reply::Continue && r2 == Reply::Continue && s2 == Engine {
                frames: s.frames.update(d, (s.frames[d] + 1) as usize),
                ..s
            }
        }),
{
    let d = (s.frames.len() - 1) as nat;
    let body = body_at(s.actions, s.frames, d);
    let pos = s.frames[d as int];
    let b = body[pos as int]->Command_0->Loop_0;
    let (s1, r1) = step(s, e1);
    assert(s1 == Engine { frames: s.frames.push(0), ..s });
    lemma_body_at_prefix(s.actions, s.frames, s1.frames, d);
    assert(body_at(s.actions, s1.frames, d + 1) == b@);
    let (s2, r2) = step(s1, e2);
    assert(s2.frames =~= s.frames.update(d as int, (pos + 1) as usize));
}

/// A shell command that exits with a code other than `0` ends the run with
/// that code: the line is printed if every line is, and then the run goes to
/// the finalize block without asking for another input line.
pub proof fn lemma_shell_code_quits(s: Engine, out: String, code: i32, e: Event)
    requires
        s.stage == Stage::Body,
        s.pending == Pending::Shell,
        code != 0,
    ensures
        ({
            let (s1, r1) = step(s, Event::Evaluated(out, Some(code)));
            &&& s1.status == Status::Quit(code)
            &&& s1.this == out@
            &&& if s.print_all {
                &&& s1.stage == Stage::AfterPrint
                &&& r1 == Reply::Write(out@.push('\n'))
                &&& step(s1, e).0.stage == Stage::Finally(0)
                &&& step(s1, e).1 == Reply::Continue
            } else {
                s1.stage == Stage::Finally(0) && r1 == Reply::Continue
            }
        }),
{
}

/// The status that the shell's exit code stands for.
fn shell_status_of(code: Option<i32>) -> (s: Status)
    ensures
        s == shell_status(code),
{
    match code {
        Some(0) => Status::Normal,
        Some(c) => Status::Quit(c),
        None => Status::Quit(0),
    }
}

impl Run {
    fn dispatch(&mut self, code: &Code) -> (r: Request)
        requires
            wf(code, old(self)),
            old(self).stage is Body,
            old(self).pending == Pending::Nothing,
        ensures
            wf(code, final(self)),
            (engine(code, final(self)), r@) == dispatch(engine(code, old(self))),
    {
        let ghost acts = code.actions@;
        let ghost f1 = self.frames@;
        let d = self.frames.len() - 1;
        let pos = self.frames[d];
        let body = body_ref(&code.actions, &self.frames, d);
        proof {
            lemma_body_wf(acts, f1, d as nat, self.ranges.len() as nat);
        }
        if pos >= body.len() {
            if d == 0 {
                return self.end_line(Status::Normal, Ghost(code));
            }
            self.frames.set(d, 0);
            proof {
                let f2 = self.frames@;
                assert forall|e: nat| e + 1 < f2.len() implies {
                    let b = #[trigger] body_at(acts, f2, e);
                    f2[e as int] < b.len() && b[f2[e as int] as int] matches Action::Command(
                        Command::Loop(_),
                    )
                } by {
                    lemma_body_at_prefix(acts, f1, f2, e);
                    assert(body_at(acts, f1, e) == body_at(acts, f1, e));
                }
                lemma_body_at_prefix(acts, f1, f2, d as nat);
            }
            return Request::Continue;
        }
        match &body[pos] {
            Action::Condition(a, k) => {
                proof {
                    crate::address::lemma_matches_len(
                        *a,
                        self.memory.line.0 as nat,
                        self.memory.line.1@,
                        self.ranges@,
                    );
                }
                let m = a.matches(&self.memory.line, &mut self.ranges);
                let next = if m {
                    self.matched = true;
                    pos + 1
                } else {
                    pos + *k + 1
                };
                self.frames.set(d, next);
                proof {
                    let f2 = self.frames@;
                    assert forall|e: nat| e + 1 < f2.len() implies {
                        let b = #[trigger] body_at(acts, f2, e);
                        f2[e as int] < b.len() && b[f2[e as int] as int] matches Action::Command(
                            Command::Loop(_),
                        )
                    } by {
                        lemma_body_at_prefix(acts, f1, f2, e);
                        assert(body_at(acts, f1, e) == body_at(acts, f1, e));
                    }
                    lemma_body_at_prefix(acts, f1, f2, d as nat);
                }
                Request::Continue
            },
            Action::Command(Command::Loop(_)) => {
                self.frames.push(0);
                proof {
                    let f2 = self.frames@;
                    assert forall|e: nat| e + 1 < f2.len() implies {
                        let b = #[trigger] body_at(acts, f2, e);
                        f2[e as int] < b.len() && b[f2[e as int] as int] matches Action::Command(
                            Command::Loop(_),
                        )
                    } by {
                        lemma_body_at_prefix(acts, f1, f2, e);
                        assert(body_at(acts, f1, e) == body_at(acts, f1, e));
                    }
                }
                Request::Continue
            },
            Action::Command(c) => {
                self.frames.set(d, pos + 1);
                proof {
                    let f2 = self.frames@;
                    assert forall|e: nat| e + 1 < f2.len() implies {
                        let b = #[trigger] body_at(acts, f2, e);
                        f2[e as int] < b.len() && b[f2[e as int] as int] matches Action::Command(
                            Command::Loop(_),
                        )
                    } by {
                        lemma_body_at_prefix(acts, f1, f2, e);
                        assert(body_at(acts, f1, e) == body_at(acts, f1, e));
                    }
                    lemma_body_at_prefix(acts, f1, f2, d as nat);
                }
                self.execute(c, Ghost(code))
            },
        }
    }

    fn complete(&mut self, e: Event, Ghost(code): Ghost<&Code>) -> (r: Request)
        requires
            wf(code, old(self)),
            old(self).stage is Body || old(self).stage is Finally,
            old(self).pending != Pending::Nothing,
        ensures
            wf(code, final(self)),
            (engine(code, final(self)), r@) == complete(engine(code, old(self)), e),
    {
        match self.pending {
            Pending::Lines(k) => match e {
                Event::Input(Some(l)) => {
                    crate::text::push(&mut self.memory.this, '\n');
                    self.memory.this.append(l.1.as_str());
                    if k > 1 {
                        self.pending = Pending::Lines(k - 1);
                        Request::Read
                    } else {
                        self.pending = Pending::Nothing;
                        Request::Continue
                    }
                },
                Event::Input(None) => {
                    self.pending = Pending::Nothing;
                    Request::Continue
                },
                _ => Request::Read,
            },
            Pending::Replace => match e {
                Event::Input(Some(l)) => {
                    self.pending = Pending::Nothing;
                    self.memory.read(l);
                    Request::Continue
                },
                Event::Input(None) => {
                    self.pending = Pending::Nothing;
                    self.outcome(Status::Break, Ghost(code))
                },
                _ => Request::Read,
            },
            _ => match e {
                Event::Evaluated(out, exit) => {
                    self.pending = Pending::Nothing;
                    self.memory.this = out;
                    let st = shell_status_of(exit);
                    self.outcome(st, Ghost(code))
                },
                _ => Request::Eval(self.memory.this.clone()),
            },
        }
    }
}

/// What compiling a script gives: the body, the finalize block and the number
/// of range slots; or why the script is refused (`Opaque` as in `Parsed`).
pub enum Compiled {
    Done(Seq<Step>, Seq<Token>, nat),
    Failed(Fault),
    Opaque,
}

/// Compiles the script from `i` on (`i` after whitespace), with `k` range
/// slots taken and the body and finalize block read so far: each instruction
/// under `$` adds its commands to the finalize block, where no loop may
/// stand; any other adds a condition that guards exactly its commands, then
/// the commands.
pub open spec fn program_of(s: Seq<char>, i: int, k: nat, body: Seq<Step>, fin: Seq<Token>) -> Compiled
    decreases s.len() - i,
{
    if i < 0 || i >= s.len() {
        Compiled::Done(body, fin, k)
    } else if s[i] == '}' {
        Compiled::Failed(Fault::Plain(Error::Unexpected('}')))
    } else {
        match instruction(s, i, k) {
            Instr::Failed(f) => Compiled::Failed(f),
            Instr::Opaque => Compiled::Opaque,
            Instr::Done(sh, ts, e, k1) => {
                let j = skip_spaces(s, e);
                if i < j <= s.len() {
                    if !(sh is Final) {
                        program_of(s, j, k1, body + steps_of(sh, ts), fin)
                    } else if exists|t: int| 0 <= t < ts.len() && #[trigger] ts[t] is Loop {
                        Compiled::Failed(Fault::Plain(Error::LoopInFinal))
                    } else {
                        program_of(s, j, k1, body, fin + ts)
                    }
                } else {
                    Compiled::Opaque
                }
            },
        }
    }
}

/// A compiled script, together with the state of a run of it.
pub struct Program {
    code: Code,
    state: Run,
}

impl View for Program {
    type V = Engine;

    closed spec fn view(&self) -> Engine {
        engine(&self.code, &self.state)
    }
}

impl Program {
    /// The program is well formed and its run state is consistent.
    pub closed spec fn wf(&self) -> bool {
        wf(&self.code, &self.state)
    }

    /// A program that has not started, with `n` range flags, all outside.
    pub fn new(actions: Vec<Action>, finally: Vec<Command>, n: usize) -> (p: Program)
        requires
            wf_actions(actions@, n as nat),
            loop_free(finally@),
        ensures
            p.wf(),
            p@ == (Engine {
                actions: actions@,
                finally: finally@,
                ranges: Seq::new(n as nat, |i: int| false),
                index: 0,
                text: Seq::empty(),
                this: Seq::empty(),
                hold: Seq::empty(),
                print_all: false,
                stage: Stage::Start,
                frames: Seq::empty(),
                pending: Pending::Nothing,
                status: Status::Normal,
                matched: false,
                matches: 0,
            }),
    {
        let mut ranges: Vec<bool> = Vec::new();
        let mut i: usize = 0;
        while i < n
            invariant
                i <= n,
                ranges@ == Seq::new(i as nat, |j: int| false),
            decreases n - i,
        {
            ranges.push(false);
            i = i + 1;
            assert(ranges@ =~= Seq::new(i as nat, |j: int| false));
        }
        Program {
            code: Code { actions, finally },
            state: Run {
                ranges,
                memory: Memory::default(),
                print_all: false,
                stage: Stage::Start,
                frames: Vec::new(),
                pending: Pending::Nothing,
                status: Status::Normal,
                matched: false,
                matches: 0,
            },
        }
    }

    /// Compiles a script: instructions under the `$` address go to the
    /// finalize block, all others to the body, each as a condition followed
    /// by the commands it guards.
    pub fn parse(script: &str) -> (res: Result<Program, Error>)
        ensures
            res matches Ok(p) ==> p.wf() && p@.stage == Stage::Start && p@.pending == Pending::Nothing
                && p@.status == Status::Normal && p@.matches == 0 && !p@.print_all && p@.this.len()
                == 0 && p@.hold.len() == 0 && forall|i: int| 0 <= i < p@.ranges.len() ==> !p@.ranges[i],
            script@.len() == 0 ==> (res matches Ok(p) && p@.actions.len() == 0 && p@.finally.len() == 0),
            match program_of(script@, skip_spaces(script@, 0), 0, Seq::empty(), Seq::empty()) {
                Compiled::Done(body, fin, k) => res matches Ok(p) && stream(p@.actions, body)
                    && spelled_all(p@.finally, fin) && p@.ranges.len() == k,
                Compiled::Failed(f) => res matches Err(x) && fault_of(x) == f,
                Compiled::Opaque => false,
            },
    {
        match Program::parse_at(script) {
            Ok(p) => Ok(p),
            Err((e, _)) => Err(e),
        }
    }

    /// Compiles a script like `parse`; an error comes with the number of
    /// characters of the script read when it was found.
    pub fn parse_at(script: &str) -> (res: Result<Program, (Error, usize)>)
        ensures
            res matches Ok(p) ==> p.wf() && p@.stage == Stage::Start && p@.pending == Pending::Nothing
                && p@.status == Status::Normal && p@.matches == 0 && !p@.print_all && p@.this.len()
                == 0 && p@.hold.len() == 0 && forall|i: int| 0 <= i < p@.ranges.len() ==> !p@.ranges[i],
            script@.len() == 0 ==> (res matches Ok(p) && p@.actions.len() == 0 && p@.finally.len() == 0),
            res matches Err((_, at)) ==> at <= script@.len(),
            match program_of(script@, skip_spaces(script@, 0), 0, Seq::empty(), Seq::empty()) {
                Compiled::Done(body, fin, k) => res matches Ok(p) && stream(p@.actions, body)
                    && spelled_all(p@.finally, fin) && p@.ranges.len() == k,
                Compiled::Failed(f) => res matches Err((x, _)) && fault_of(x) == f,
                Compiled::Opaque => false,
            },
    {
        let mut r = Reader::new(script);
        let mut slot: usize = 0;
        let mut actions: Vec<Action> = Vec::new();
        let mut finally: Vec<Command> = Vec::new();
        r.skip_whitespace();
        let ghost s = script@;
        let ghost whole = program_of(s, r.pos as int, 0, Seq::empty(), Seq::empty());
        let ghost body: Seq<Step> = Seq::empty();
        let ghost fin: Seq<Token> = Seq::empty();
        while r.pos < r.chars.len()
            invariant
                r.wf(),
                slot <= r.pos,
                wf_actions(actions@, slot as nat),
                loop_free(finally@),
                script@.len() == 0 ==> actions.len() == 0 && finally.len() == 0,
                r.chars@ == script@,
                s == script@,
                whole == program_of(s, skip_spaces(s, 0), 0, Seq::empty(), Seq::empty()),
                whole == program_of(s, r.pos as int, slot as nat, body, fin),
                stream(actions@, body),
                spelled_all(finally@, fin),
            decreases r.chars.len() - r.pos,
        {
            let ghost i = r.pos as int;
            if r.peek() == Some('}') {
                return Err((Error::Unexpected('}'), r.pos));
            }
            let ghost slot_before = slot;
            let (a, mut cmds) = match parse_instruction(&mut r, &mut slot) {
                Ok(x) => x,
                Err(e) => return Err((e, r.pos)),
            };
            let ghost ins = instruction(s, i, slot_before as nat);
            let ghost ts = ins->Done_1;
            proof {
                lemma_wf_grow(actions@, slot_before as nat, slot as nat);
                crate::reader::lemma_skip_spaces(s, r.pos as int);
            }
            if let Address::Final = a {
                proof {
                    assert(ins->Done_0 is Final);
                }
                let mut i: usize = 0;
                while i < cmds.len()
                    invariant
                        i <= cmds.len(),
                        script@.len() > 0,
                        r.wf(),
                        r.chars@ == script@,
                        forall|j: int| 0 <= j < i ==> !(#[trigger] cmds@[j] is Loop),
                        s == script@,
                        whole == program_of(s, skip_spaces(s, 0), 0, Seq::empty(), Seq::empty()),
                        spelled_all(cmds@, ts),
                        (exists|t: int| 0 <= t < ts.len() && #[trigger] ts[t] is Loop)
                            ==> whole == Compiled::Failed(Fault::Plain(Error::LoopInFinal)),
                    decreases cmds.len() - i,
                {
                    if let Command::Loop(_) = &cmds[i] {
                        proof {
                            assert(spelled(cmds@[i as int], ts[i as int]));
                            assert(ts[i as int] is Loop);
                        }
                        return Err((Error::LoopInFinal, r.pos));
                    }
                    i = i + 1;
                }
                let ghost before = finally@;
                let ghost added = cmds@;
                finally.append(&mut cmds);
                proof {
                    assert forall|j: int| 0 <= j < finally.len() implies !(#[trigger] finally@[j] is Loop) by {
                        if j >= before.len() {
                            assert(finally@[j] == added[j - before.len()]);
                        }
                    }
                    assert forall|t: int| 0 <= t < ts.len() implies !(#[trigger] ts[t] is Loop) by {
                        assert(spelled(added[t], ts[t]));
                    }
                    assert forall|j: int| 0 <= j < finally.len() implies spelled(
                        #[trigger] finally@[j],
                        (fin + ts)[j],
                    ) by {
                        if j >= before.len() {
                            assert(finally@[j] == added[j - before.len()]);
                        } else {
                            assert(finally@[j] == before[j]);
                        }
                    }
                    fin = fin + ts;
                }
            } else {
                let ghost before = actions@;
                let ghost added = cmds@;
                push_instruction(&mut actions, a, cmds, Ghost(slot as nat));
                proof {
                    let sh = ins->Done_0;
                    lemma_stream_push(before, body, a, sh, added, ts);
                    body = body + steps_of(sh, ts);
                }
            }
            r.skip_whitespace();
        }
        Ok(Program::new(actions, finally, slot))
    }

    /// The compiled body.
    pub fn actions(&self) -> (r: &Vec<Action>)
        ensures
            r@ == self@.actions,
    {
        &self.code.actions
    }

    /// The compiled finalize block.
    pub fn finally(&self) -> (r: &Vec<Command>)
        ensures
            r@ == self@.finally,
    {
        &self.code.finally
    }

    /// The pattern buffer.
    pub fn pattern(&self) -> (r: &String)
        ensures
            r@ == self@.this,
    {
        &self.state.memory.this
    }

    /// The hold buffer.
    pub fn hold(&self) -> (r: &String)
        ensures
            r@ == self@.hold,
    {
        &self.state.memory.hold
    }

    /// Takes one event and makes one step of the run; the request says what
    /// the caller does next.
    pub fn run(&mut self, event: Event) -> (r: Request)
        requires
            old(self).wf(),
        ensures
            final(self).wf(),
            (final(self)@, r@) == step(old(self)@, event),
    {
        let code = &self.code;
        let waiting = match self.state.pending {
            Pending::Nothing => false,
            _ => true,
        };
        let busy = match self.state.stage {
            Stage::Body => true,
            Stage::Finally(_) => true,
            _ => false,
        };
        if waiting && busy {
            return self.state.complete(event, Ghost(code));
        }
        match self.state.stage {
            Stage::Start => {
                let all = match event {
                    Event::Start(all) => all,
                    _ => self.state.print_all,
                };
                self.state.print_all = all;
                self.state.stage = Stage::AwaitLine;
                Request::Read
            },
            Stage::AwaitLine => match event {
                Event::Input(Some(l)) => {
                    self.state.memory.read(l);
                    self.state.status = Status::Normal;
                    self.state.matched = false;
                    self.state.frames = vec![0];
                    self.state.stage = Stage::Body;
                    proof {
                        assert(body_at(code.actions@, self.state.frames@, 0) == code.actions@);
                    }
                    assert(self.state.frames@ == seq![0usize]);
                    Request::Continue
                },
                Event::Input(None) => {
                    self.state.stage = Stage::Finally(0);
                    Request::Continue
                },
                _ => Request::Read,
            },
            Stage::Body => self.state.dispatch(code),
            Stage::AfterPrint => self.state.after_print(Ghost(code)),
            Stage::Finally(i) => {
                if i >= code.finally.len() {
                    self.state.finish(Ghost(code))
                } else {
                    self.state.stage = Stage::Finally(i + 1);
                    self.state.execute(&code.finally[i], Ghost(code))
                }
            },
            Stage::Done => Request::Finish(self.state.status, self.state.matches),
        }
    }
}

impl std::str::FromStr for Program {
    type Err = Error;

    fn from_str(s: &str) -> Result<Program, Error> {
        Program::parse(s)
    }
}

} // verus!
