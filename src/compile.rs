//! Commands, instructions and loop bodies, and their assembly into the flat
//! instruction stream.
use vstd::prelude::*;

use crate::address::{lemma_slots_grow, resolved, slots_below, Address};
use crate::command::{wf_actions, Action, Command};
use crate::error::{fault_of, Error, Fault};
use crate::escape::unescaped;
use crate::pattern::regex_accepts;
use crate::lexer::{keep_spec, parse_keep, quoted, read_number, read_quoted, read_template, template};
use crate::parse_address::{self, address, shaped, Shape};
use crate::pattern::Pattern;
use crate::reader::{char_at, decimal_value, digits_end, is_space, line_end, skip_spaces, Reader};
use crate::scan::regex_literal;

verus! {

/// A command whose loop body, if it has one, is well formed.
pub open spec fn command_wf(c: Command, n: nat) -> bool {
    match c {
        Command::Loop(body) => wf_actions(body@, n),
        _ => true,
    }
}

/// `b` is `a` with each `Deferred` placeholder replaced by the pattern `src`.
pub open spec fn replaced_by(a: Address, b: Address, src: Seq<char>) -> bool
    decreases a,
{
    match a {
        Address::Deferred => b matches Address::Pattern(p) && p@ == src,
        Address::Negate(x) => b matches Address::Negate(y) && replaced_by(*x, *y, src),
        Address::Range(l, r, k) => b matches Address::Range(l2, r2, k2) && k2 == k && replaced_by(
            *l,
            *l2,
            src,
        ) && replaced_by(*r, *r2, src),
        Address::AnySet(v) => b matches Address::AnySet(w) && w.len() == v.len() && forall|i: int|
            0 <= i < v.len() ==> replaced_by(#[trigger] v@[i], w@[i], src),
        _ => b == a,
    }
}

/// A command as the grammar spells it: one without text, a text to insert,
/// a substitution with its pattern text, decoded template and limit, or a
/// loop with its body.
pub enum Token {
    Plain(Command),
    Text(Seq<char>),
    Subst(Seq<char>, Seq<char>, usize),
    Loop(Seq<Step>),
}

/// An element of the instruction stream as contracts describe it.
pub enum Step {
    Cond(Shape, usize),
    Cmd(Token),
}

/// `c` is the command that `t` describes.
pub open spec fn spelled(c: Command, t: Token) -> bool
    decreases c,
{
    match t {
        Token::Plain(k) => c == k && !(k is Substitute) && !(k is Insert) && !(k is Loop),
        Token::Text(x) => c matches Command::Insert(y) && y@ == x,
        Token::Subst(p, x, n) => c matches Command::Substitute(q, y, m) && q@ == p && y@ == x && m == n,
        Token::Loop(steps) => match c {
            Command::Loop(b) => stream(b@, steps),
            _ => false,
        },
    }
}

/// `acts` is the instruction stream that `steps` describes.
pub open spec fn stream(acts: Seq<Action>, steps: Seq<Step>) -> bool
    decreases acts,
{
    acts.len() == steps.len() && forall|i: int|
        0 <= i < acts.len() ==> match #[trigger] acts[i] {
            Action::Condition(a, n) => steps[i] matches Step::Cond(sh, m) && shaped(a, sh) && n == m,
            Action::Command(c) => steps[i] matches Step::Cmd(t) && spelled(c, t),
        }
}

pub open spec fn spelled_all(cmds: Seq<Command>, ts: Seq<Token>) -> bool {
    cmds.len() == ts.len() && forall|k: int| 0 <= k < ts.len() ==> spelled(#[trigger] cmds[k], ts[k])
}

/// The substitution whose first `/` is at `i` (after the `s`), and the
/// position after it: the pattern is the literal there, which must not be
/// empty; the template is decoded; `g` or no count means all matches.
pub open spec fn substitution(s: Seq<char>, i: int) -> Result<(Token, int), Fault> {
    if char_at(s, i) != Some('/') {
        Err(Fault::Plain(Error::Missing('/')))
    } else {
        match regex_literal(s, i) {
            Err(x) => Err(Fault::Plain(x)),
            Ok((o, e)) => if o.len() == 0 {
                Err(Fault::Plain(Error::EmptyRegex))
            } else if !regex_accepts(o) {
                Err(Fault::BadRegex(o))
            } else {
                match template(s, e, false) {
                    Err(x) => Err(Fault::Plain(x)),
                    Ok((raw, e2)) => match unescaped(raw) {
                        None => Err(Fault::BadEscape(raw)),
                        Some(t) => if char_at(s, e2) == Some('g') {
                            Ok((Token::Subst(o, t, 0), e2 + 1))
                        } else {
                            let e3 = digits_end(s, e2);
                            let d = s.subrange(e2, e3);
                            if d.len() == 0 {
                                Ok((Token::Subst(o, t, 0), e3))
                            } else if decimal_value(d) > usize::MAX {
                                Err(Fault::Plain(Error::NumberTooLarge))
                            } else {
                                Ok((Token::Subst(o, t, decimal_value(d) as usize), e3))
                            }
                        },
                    },
                }
            },
        }
    }
}

/// The command that a letter stands for on its own.
pub open spec fn letter(c: char) -> Option<Command> {
    if c == 'p' {
        Some(Command::Println)
    } else if c == 'P' {
        Some(Command::Print)
    } else if c == 'l' {
        Some(Command::Escapeln)
    } else if c == '=' {
        Some(Command::LineNumber)
    } else if c == 'd' {
        Some(Command::Delete)
    } else if c == 'z' {
        Some(Command::Reset)
    } else if c == 'h' {
        Some(Command::Hold)
    } else if c == 'g' {
        Some(Command::Get)
    } else if c == 'x' {
        Some(Command::Exchange)
    } else if c == 'j' {
        Some(Command::Joinln)
    } else if c == 'J' {
        Some(Command::Join)
    } else if c == 'e' {
        Some(Command::Eval)
    } else if c == 'R' {
        Some(Command::ReadReplace)
    } else {
        None
    }
}

/// The command (not a loop) whose letter is at `i`, and the position after it.
#[verifier::opaque]
pub open spec fn token_at(s: Seq<char>, i: int) -> Result<(Token, int), Fault> {
    let c = s[i];
    if letter(c) is Some {
        Ok((Token::Plain(letter(c)->0), i + 1))
    } else if c == 'n' {
        Ok((Token::Text(seq!['\n']), i + 1))
    } else if c == 't' {
        Ok((Token::Text(seq!['\t']), i + 1))
    } else if c == 's' {
        substitution(s, i + 1)
    } else if c == 'k' {
        match keep_spec(s, skip_spaces(s, i + 1)) {
            Ok((k, e)) => Ok((Token::Plain(k), e)),
            Err(x) => Err(Fault::Plain(x)),
        }
    } else if c == 'r' || c == 'q' {
        let j = skip_spaces(s, i + 1);
        let e = digits_end(s, j);
        let d = s.subrange(j, e);
        let v = decimal_value(d);
        if d.len() == 0 {
            Ok((Token::Plain(if c == 'r' { Command::Readln(1) } else { Command::Quit(0) }), e))
        } else if c == 'r' && v <= usize::MAX {
            Ok((Token::Plain(Command::Readln(v as usize)), e))
        } else if c == 'q' && v <= i32::MAX {
            Ok((Token::Plain(Command::Quit(v as i32)), e))
        } else {
            Err(Fault::Plain(Error::NumberTooLarge))
        }
    } else if c == '\'' || c == '"' {
        match quoted(s, i + 1, c) {
            Err(x) => Err(Fault::Plain(x)),
            Ok((raw, e)) => match unescaped(raw) {
                Some(t) => Ok((Token::Text(t), e)),
                None => Err(Fault::BadEscape(raw)),
            },
        }
    } else {
        Err(Fault::Plain(Error::Unexpected(c)))
    }
}

/// What reading part of a script gives: what was read, where reading
/// stopped and the next free range slot; or why the script is refused.
/// `Opaque` stands for positions that would not move forward, which reading
/// never meets.
pub enum Parsed<T> {
    Done(T, int, nat),
    Failed(Fault),
    Opaque,
}

pub open spec fn then(t: Seq<Token>, r: Parsed<Seq<Token>>) -> Parsed<Seq<Token>> {
    match r {
        Parsed::Done(ts, e, k) => Parsed::Done(t + ts, e, k),
        other => other,
    }
}

/// The commands of an instruction from `i` on, whose first range takes slot
/// `k`: a `}` or the end of the script stops reading and stays, a `;` stops
/// it and is consumed, a `.` adds a break and stops it, whitespace and `#`
/// comments between commands are skipped, and `:` starts a loop whose body
/// is in braces.
pub open spec fn commands(s: Seq<char>, i: int, k: nat) -> Parsed<Seq<Token>>
    decreases s.len() - i, 0int,
{
    if i < 0 || i >= s.len() || s[i] == '}' {
        Parsed::Done(Seq::empty(), i, k)
    } else {
        let c = s[i];
        if c == ';' {
            Parsed::Done(Seq::empty(), i + 1, k)
        } else if c == '.' {
            Parsed::Done(seq![Token::Plain(Command::Break)], i + 1, k)
        } else if c == ':' {
            let j = skip_spaces(s, i + 1);
            if char_at(s, j) != Some('{') {
                Parsed::Failed(Fault::Plain(Error::Missing('{')))
            } else if i < j + 1 <= s.len() {
                match block(s, j + 1, k, Seq::empty()) {
                    Parsed::Done(steps, e, k2) => {
                        let j2 = skip_spaces(s, e);
                        if i < j2 <= s.len() {
                            then(seq![Token::Loop(steps)], commands(s, j2, k2))
                        } else {
                            Parsed::Opaque
                        }
                    },
                    Parsed::Failed(f) => Parsed::Failed(f),
                    Parsed::Opaque => Parsed::Opaque,
                }
            } else {
                Parsed::Opaque
            }
        } else if c == '#' {
            let e = line_end(s, i + 1);
            if i < e <= s.len() {
                commands(s, e, k)
            } else {
                Parsed::Opaque
            }
        } else if is_space(c) {
            commands(s, i + 1, k)
        } else {
            match token_at(s, i) {
                Err(f) => Parsed::Failed(f),
                Ok((t, e)) => {
                    let j = skip_spaces(s, e);
                    if i < j <= s.len() {
                        then(seq![t], commands(s, j, k))
                    } else {
                        Parsed::Opaque
                    }
                },
            }
        }
    }
}

/// The steps of an instruction: a condition that guards exactly its
/// commands, then the commands.
pub open spec fn steps_of(sh: Shape, ts: Seq<Token>) -> Seq<Step> {
    seq![Step::Cond(sh, ts.len() as usize)] + ts.map_values(|t: Token| Step::Cmd(t))
}

/// The instructions of a loop body from `i` on, after the steps `acc` already
/// read, up to the `}` that closes it (consumed).
pub open spec fn block(s: Seq<char>, i: int, k: nat, acc: Seq<Step>) -> Parsed<Seq<Step>>
    decreases s.len() - i, 2int,
{
    let j = skip_spaces(s, i);
    if !(i <= j <= s.len()) {
        Parsed::Opaque
    } else if j == s.len() {
        Parsed::Failed(Fault::Plain(Error::Missing('}')))
    } else if s[j] == '}' {
        Parsed::Done(acc, j + 1, k)
    } else {
        match instruction(s, j, k) {
            Instr::Done(sh, ts, e, k1) => if i < e <= s.len() {
                block(s, e, k1, acc + steps_of(sh, ts))
            } else {
                Parsed::Opaque
            },
            Instr::Failed(f) => Parsed::Failed(f),
            Instr::Opaque => Parsed::Opaque,
        }
    }
}

proof fn lemma_spelled_push(cmds: Seq<Command>, ts: Seq<Token>, c: Command, t: Token)
    requires
        spelled_all(cmds, ts),
        spelled(c, t),
    ensures
        spelled_all(cmds.push(c), ts + seq![t]),
{
    let a = cmds.push(c);
    let b = ts + seq![t];
    assert forall|k: int| 0 <= k < b.len() implies spelled(#[trigger] a[k], b[k]) by {
        if k < ts.len() {
            assert(a[k] == cmds[k]);
            assert(b[k] == ts[k]);
        }
    }
}

proof fn lemma_then(a: Seq<Token>, b: Seq<Token>, r: Parsed<Seq<Token>>)
    ensures
        then(a, then(b, r)) == then(a + b, r),
{
    if let Parsed::Done(ts, e, k) = r {
        assert(a + (b + ts) =~= (a + b) + ts);
    }
}

/// Appending an instruction to a stream appends its steps to what describes it.
pub proof fn lemma_stream_push(
    acts: Seq<Action>,
    acc: Seq<Step>,
    a: Address,
    sh: Shape,
    cmds: Seq<Command>,
    ts: Seq<Token>,
)
    requires
        stream(acts, acc),
        shaped(a, sh),
        spelled_all(cmds, ts),
    ensures
        stream(
            acts + seq![Action::Condition(a, cmds.len() as usize)] + cmds.map_values(|c: Command| Action::Command(c)),
            acc + steps_of(sh, ts),
        ),
{
    let acts2 = acts + seq![Action::Condition(a, cmds.len() as usize)] + cmds.map_values(
        |c: Command| Action::Command(c),
    );
    let acc2 = acc + steps_of(sh, ts);
    let base = acts.len();
    assert forall|j: int| 0 <= j < acts2.len() implies match #[trigger] acts2[j] {
        Action::Condition(x, n) => acc2[j] matches Step::Cond(y, m) && shaped(x, y) && n == m,
        Action::Command(c) => acc2[j] matches Step::Cmd(t) && spelled(c, t),
    } by {
        if j < base {
            assert(acts2[j] == acts[j]);
            assert(acc2[j] == acc[j]);
        } else if j > base {
            assert(acts2[j] == Action::Command(cmds[j - base - 1]));
            assert(acc2[j] == Step::Cmd(ts[j - base - 1]));
        } else {
            assert(acts2[j] == Action::Condition(a, cmds.len() as usize));
            assert(acc2[j] == Step::Cond(sh, ts.len() as usize));
        }
    }
}

pub proof fn lemma_wf_grow(acts: Seq<Action>, n: nat, m: nat)
    requires
        wf_actions(acts, n),
        n <= m,
    ensures
        wf_actions(acts, m),
    decreases acts,
{
    assert forall|i: int| 0 <= i < acts.len() implies match #[trigger] acts[i] {
        Action::Condition(a, k) => i + k < acts.len() && slots_below(a, m) && resolved(a) && forall|
            j: int,
        | i < j <= i + k ==> acts[j] is Command,
        Action::Command(Command::Loop(body)) => wf_actions(body@, m),
        _ => true,
    } by {
        match acts[i] {
            Action::Condition(a, k) => lemma_slots_grow(a, n, m),
            Action::Command(Command::Loop(body)) => {
                assert(decreases_to!(acts => acts[i]));
                let c = acts[i]->Command_0;
                assert(decreases_to!(acts[i] => c));
                assert(decreases_to!(c => body));
                assert(decreases_to!(body => body@));
                lemma_wf_grow(body@, n, m);
            },
            _ => {},
        }
    }
}

proof fn lemma_replaced(a: Address, b: Address, src: Seq<char>, n: nat)
    requires
        replaced_by(a, b, src),
    ensures
        resolved(b),
        slots_below(a, n) ==> slots_below(b, n),
    decreases a,
{
    match a {
        Address::Negate(x) => lemma_replaced(*x, *b->Negate_0, src, n),
        Address::Range(l, r, _) => {
            lemma_replaced(*l, *b->Range_0, src, n);
            lemma_replaced(*r, *b->Range_1, src, n);
        },
        Address::AnySet(v) => {
            let w = b->AnySet_0;
            assert forall|i: int| 0 <= i < w.len() implies resolved(#[trigger] w@[i]) && (slots_below(
                a,
                n,
            ) ==> slots_below(w@[i], n)) by {
                assert(decreases_to!(a => a->AnySet_0));
                assert(decreases_to!(a->AnySet_0 => a->AnySet_0@));
                assert(decreases_to!(v@ => v@[i]));
                lemma_replaced(v@[i], w@[i], src, n);
            }
        },
        _ => {},
    }
}

/// Whether the address holds no `Deferred` placeholder.
fn is_resolved(a: &Address) -> (r: bool)
    ensures
        r == resolved(*a),
    decreases a,
{
    match a {
        Address::Negate(b) => is_resolved(b),
        Address::Range(l, r, _) => is_resolved(l) && is_resolved(r),
        Address::AnySet(v) => {
            let mut i: usize = 0;
            while i < v.len()
                invariant
                    i <= v.len(),
                    *a == Address::AnySet(*v),
                    forall|j: int| 0 <= j < i ==> resolved(#[trigger] v@[j]),
                decreases v.len() - i,
            {
                proof {
                    let ghost x = *a;
                    assert(decreases_to!(x => x->AnySet_0));
                    assert(decreases_to!(x->AnySet_0 => x->AnySet_0@));
                    assert(decreases_to!(v@ => v@[i as int]));
                }
                if !is_resolved(&v[i]) {
                    return false;
                }
                i = i + 1;
            }
            true
        },
        Address::Deferred => false,
        _ => true,
    }
}

/// Replaces each `Deferred` placeholder in `a` by a copy of `p`.
fn replace_deferred(a: Address, p: &Pattern) -> (r: Address)
    ensures
        replaced_by(a, r, p@),
    decreases a,
{
    match a {
        Address::Deferred => Address::Pattern(p.duplicate()),
        Address::Negate(b) => Address::Negate(Box::new(replace_deferred(*b, p))),
        Address::Range(l, r, k) => Address::Range(
            Box::new(replace_deferred(*l, p)),
            Box::new(replace_deferred(*r, p)),
            k,
        ),
        Address::AnySet(v) => {
            let ghost whole = Address::AnySet(v);
            assert(whole == a);
            let mut rest = v;
            let mut out: Vec<Address> = Vec::new();
            while rest.len() > 0
                invariant
                    whole == Address::AnySet(v),
                    whole == a,
                    out.len() + rest.len() == v.len(),
                    rest@ == v@.skip(out.len() as int),
                    forall|j: int| 0 <= j < out.len() ==> replaced_by(#[trigger] v@[j], out@[j], p@),
                decreases rest.len(),
            {
                let x = rest.remove(0);
                proof {
                    assert(x == v@[out.len() as int]);
                    assert(decreases_to!(whole => whole->AnySet_0));
                    assert(decreases_to!(whole->AnySet_0 => whole->AnySet_0@));
                    assert(decreases_to!(v@ => v@[out.len() as int]));
                    assert(decreases_to!(a => x));
                }
                let y = replace_deferred(x, p);
                out.push(y);
                assert(rest@ =~= v@.skip(out.len() as int));
            }
            Address::AnySet(out)
        },
        other => other,
    }
}

/// Resolves the `Deferred` placeholders of an instruction's address with the
/// pattern of its first command, which must then be a substitution.
pub fn resolve(a: Address, first: Option<&Command>) -> (res: Result<Address, Error>)
    ensures
        match first {
            Some(Command::Substitute(p, _, _)) => res matches Ok(b) && replaced_by(a, b, p@),
            _ => if resolved(a) {
                res == Ok::<Address, Error>(a)
            } else {
                res == Err::<Address, Error>(Error::DeferredWithoutSubstitution)
            },
        },
{
    match first {
        Some(Command::Substitute(p, _, _)) => Ok(replace_deferred(a, p)),
        _ => if is_resolved(&a) {
            Ok(a)
        } else {
            Err(Error::DeferredWithoutSubstitution)
        },
    }
}

/// Reads a substitution after its `s`: `/regex/template/` and an optional
/// `g` or count.
pub fn parse_substitute(r: &mut Reader) -> (res: Result<Command, Error>)
    requires
        old(r).wf(),
    ensures
        final(r).wf(),
        final(r).chars == old(r).chars,
        old(r).pos <= final(r).pos,
        match substitution(old(r).chars@, old(r).pos as int) {
            Ok((t, e)) => res matches Ok(c) && spelled(c, t) && final(r).pos == e,
            Err(f) => res matches Err(x) && fault_of(x) == f,
        },
{
    if r.peek() != Some('/') {
        return Err(Error::Missing('/'));
    }
    proof {
        crate::scan::lemma_scan_ends(r.chars@, r.pos + 1, seq![('/', false)], crate::scan::Mode::Text);
    }
    let src = match parse_address::parse_regex(r)? {
        Some(p) => p,
        None => return Err(Error::EmptyRegex),
    };
    let ghost e = r.pos as int;
    proof {
        crate::lexer::lemma_template_fails(r.chars@, e, false);
    }
    let dst = read_template(r)?;
    let mut limit: usize = 0;
    if r.peek() == Some('g') {
        r.next();
    } else {
        proof {
            crate::reader::lemma_digits_end(r.chars@, r.pos as int);
        }
        if let Some(n) = read_number(r)? {
            limit = n;
        }
    }
    Ok(Command::Substitute(src, dst, limit))
}

/// Appends an instruction to the stream: a condition on `a` that guards the
/// commands, then the commands.
pub fn push_instruction(acts: &mut Vec<Action>, a: Address, cmds: Vec<Command>, Ghost(n): Ghost<nat>)
    requires
        wf_actions(old(acts)@, n),
        slots_below(a, n),
        resolved(a),
        forall|i: int| 0 <= i < cmds.len() ==> command_wf(#[trigger] cmds@[i], n),
    ensures
        wf_actions(final(acts)@, n),
        final(acts)@ == old(acts)@ + seq![Action::Condition(a, cmds.len() as usize)] + cmds@.map_values(
            |c: Command| Action::Command(c),
        ),
{
    let ghost start = acts@;
    let ghost all = cmds@;
    let count = cmds.len();
    acts.push(Action::Condition(a, count));
    let mut rest = cmds;
    let mut i: usize = 0;
    while rest.len() > 0
        invariant
            i + rest.len() == count,
            count == all.len(),
            rest@ == all.skip(i as int),
            acts@ == start + seq![Action::Condition(a, count)] + all.take(i as int).map_values(
                |c: Command| Action::Command(c),
            ),
        decreases rest.len(),
    {
        let c = rest.remove(0);
        acts.push(Action::Command(c));
        proof {
            assert(c == all[i as int]);
            assert(all.take(i + 1).map_values(|c: Command| Action::Command(c)) =~= all.take(
                i as int,
            ).map_values(|c: Command| Action::Command(c)).push(Action::Command(c)));
        }
        i = i + 1;
        assert(rest@ =~= all.skip(i as int));
    }
    proof {
        assert(all.take(count as int) =~= all);
        let acts2 = acts@;
        let base = start.len();
        assert forall|j: int| 0 <= j < acts2.len() implies match #[trigger] acts2[j] {
            Action::Condition(b, k) => j + k < acts2.len() && slots_below(b, n) && resolved(b)
                && forall|x: int| j < x <= j + k ==> acts2[x] is Command,
            Action::Command(Command::Loop(body)) => wf_actions(body@, n),
            _ => true,
        } by {
            if j < base {
                assert(acts2[j] == start[j]);
                if let Action::Condition(b, k) = start[j] {
                    assert forall|x: int| j < x <= j + k implies acts2[x] is Command by {
                        assert(acts2[x] == start[x]);
                    }
                }
            } else if j > base {
                assert(acts2[j] == Action::Command(all[j - base - 1]));
                assert(command_wf(all[j - base - 1], n));
            } else {
                assert forall|x: int| j < x <= j + count implies acts2[x] is Command by {
                    assert(acts2[x] == Action::Command(all[x - base - 1]));
                }
            }
        }
    }
}

/// Reads the rest of the command whose character `c` was just consumed;
/// `c` is none of `;`, `.`, `:`, `#`, `}` and no whitespace.
fn parse_token(r: &mut Reader, c: char) -> (res: Result<Command, Error>)
    requires
        old(r).wf(),
        old(r).pos >= 1,
        old(r).chars@[old(r).pos - 1] == c,
        c != ';' && c != '.' && c != ':' && c != '#' && c != '}' && !is_space(c),
    ensures
        final(r).wf(),
        final(r).chars == old(r).chars,
        old(r).pos <= final(r).pos,
        match token_at(old(r).chars@, old(r).pos - 1) {
            Ok((t, e)) => res matches Ok(cmd) && spelled(cmd, t) && final(r).pos == e,
            Err(f) => res matches Err(x) && fault_of(x) == f,
        },
        res matches Ok(cmd) ==> !(cmd is Loop),
{
    let ghost s = r.chars@;
    let ghost i = r.pos - 1;
    reveal(token_at);
    match c {
        'p' => Ok(Command::Println),
        'P' => Ok(Command::Print),
        'n' => {
            let v = vec!['\n'];
            assert(v@ == seq!['\n']);
            Ok(Command::Insert(crate::text::string_of(&v)))
        },
        't' => {
            let v = vec!['\t'];
            assert(v@ == seq!['\t']);
            Ok(Command::Insert(crate::text::string_of(&v)))
        },
        'l' => Ok(Command::Escapeln),
        '=' => Ok(Command::LineNumber),
        'd' => Ok(Command::Delete),
        'z' => Ok(Command::Reset),
        'h' => Ok(Command::Hold),
        'g' => Ok(Command::Get),
        'x' => Ok(Command::Exchange),
        'j' => Ok(Command::Joinln),
        'J' => Ok(Command::Join),
        'e' => Ok(Command::Eval),
        'R' => Ok(Command::ReadReplace),
        's' => parse_substitute(r),
        'k' => {
            r.skip_whitespace();
            parse_keep(r)
        },
        'r' => {
            r.skip_whitespace();
            proof {
                crate::reader::lemma_digits_end(s, r.pos as int);
            }
            match read_number(r)? {
                Some(n) => Ok(Command::Readln(n)),
                None => Ok(Command::Readln(1)),
            }
        },
        'q' => {
            r.skip_whitespace();
            proof {
                crate::reader::lemma_digits_end(s, r.pos as int);
            }
            match read_number(r)? {
                Some(n) => {
                    if n > 2147483647 {
                        return Err(Error::NumberTooLarge);
                    }
                    Ok(Command::Quit(n as i32))
                },
                None => Ok(Command::Quit(0)),
            }
        },
        '\'' | '"' => {
            proof {
                crate::lexer::lemma_quoted_fails(s, i + 1, c);
            }
            match read_quoted(r, c) {
                Ok(t) => Ok(Command::Insert(t)),
                Err(x) => Err(x),
            }
        },
        _ => Err(Error::Unexpected(c)),
    }
}

/// Reads the commands of one instruction, up to a `;`, a `.` (kept as a
/// `Break`), the end of the script, or a `}` (left in place).
pub fn parse_commands(r: &mut Reader, slot: &mut usize) -> (res: Result<Vec<Command>, Error>)
    requires
        old(r).wf(),
        *old(slot) <= old(r).pos,
    ensures
        final(r).wf(),
        final(r).chars == old(r).chars,
        old(r).pos <= final(r).pos,
        *old(slot) <= *final(slot) <= final(r).pos,
        char_at(old(r).chars@, old(r).pos as int) matches Some(c) && c != '}' ==> old(r).pos
            < final(r).pos,
        res matches Ok(cmds) ==> forall|i: int|
            0 <= i < cmds.len() ==> command_wf(#[trigger] cmds@[i], *final(slot) as nat),
        match commands(old(r).chars@, old(r).pos as int, *old(slot) as nat) {
            Parsed::Done(ts, e, k) => res matches Ok(cmds) && spelled_all(cmds@, ts) && final(r).pos
                == e && *final(slot) == k,
            Parsed::Failed(f) => res matches Err(x) && fault_of(x) == f,
            Parsed::Opaque => false,
        },
    decreases old(r).chars.len() - old(r).pos, 0int,
{
    let ghost s = r.chars@;
    let ghost start = r.pos as int;
    let ghost k0 = *slot as nat;
    let ghost ts: Seq<Token> = Seq::empty();
    let mut cmds: Vec<Command> = Vec::new();
    proof {
        assert(then(ts, commands(s, start, k0)) == commands(s, start, k0)) by {
            if let Parsed::Done(us, e, k) = commands(s, start, k0) {
                assert(ts + us =~= us);
            }
        }
    }
    loop
        invariant_except_break
            spelled_all(cmds@, ts),
            commands(s, start, k0) == then(ts, commands(s, r.pos as int, *slot as nat)),
        invariant
            r.wf(),
            r.chars == old(r).chars,
            s == r.chars@,
            start == old(r).pos,
            k0 == *old(slot),
            old(r).pos <= r.pos,
            *old(slot) <= *slot <= r.pos,
            char_at(old(r).chars@, old(r).pos as int) matches Some(c) && c != '}' && r.pos
                == old(r).pos ==> cmds.len() == 0,
            forall|i: int| 0 <= i < cmds.len() ==> command_wf(#[trigger] cmds@[i], *slot as nat),
        ensures
            r.wf(),
            r.chars == old(r).chars,
            old(r).pos <= r.pos,
            *old(slot) <= *slot <= r.pos,
            char_at(old(r).chars@, old(r).pos as int) matches Some(c) && c != '}' ==> old(r).pos
                < r.pos,
            forall|i: int| 0 <= i < cmds.len() ==> command_wf(#[trigger] cmds@[i], *slot as nat),
            spelled_all(cmds@, ts),
            commands(s, start, k0) == Parsed::Done(ts, r.pos as int, *slot as nat),
        decreases r.chars.len() - r.pos,
    {
        let i = r.pos;
        if r.peek() == Some('}') {
            assert(ts + Seq::<Token>::empty() =~= ts);
            break;
        }
        let c = match r.next() {
            Some(c) => c,
            None => {
                assert(ts + Seq::<Token>::empty() =~= ts);
                break;
            },
        };
        if c == ';' {
            assert(ts + Seq::<Token>::empty() =~= ts);
            break;
        }
        if c == '.' {
            let ghost old_cmds = cmds@;
            cmds.push(Command::Break);
            proof {
                lemma_spelled_push(old_cmds, ts, Command::Break, Token::Plain(Command::Break));
                ts = ts + seq![Token::Plain(Command::Break)];
            }
            break;
        }
        if c == '#' {
            proof {
                crate::reader::lemma_line_end(s, i + 1);
            }
            r.skip_line();
            continue;
        }
        if crate::reader::is_whitespace(c) {
            continue;
        }
        let ghost slot_before = *slot;
        let ghost tok: Token;
        let cmd = if c == ':' {
            r.skip_whitespace();
            if !r.next_is('{') {
                return Err(Error::Missing('{'));
            }
            let ghost b = block(s, r.pos as int, *slot as nat, Seq::empty());
            let body = parse_block(r, slot)?;
            proof {
                assert(command_wf(Command::Loop(body), *slot as nat));
                tok = Token::Loop(b->Done_0);
            }
            Command::Loop(body)
        } else {
            let t = parse_token(r, c)?;
            proof {
                tok = token_at(s, i as int)->Ok_0.0;
            }
            t
        };
        proof {
            assert(command_wf(cmd, *slot as nat));
        }
        proof {
            assert forall|k: int| 0 <= k < cmds.len() implies command_wf(#[trigger] cmds@[k], *slot as nat) by {
                if let Command::Loop(body) = cmds@[k] {
                    lemma_wf_grow(body@, slot_before as nat, *slot as nat);
                }
            }
        }
        let ghost old_cmds = cmds@;
        let ghost new_cmd = cmd;
        cmds.push(cmd);
        r.skip_whitespace();
        proof {
            assert forall|k: int| 0 <= k < cmds.len() implies command_wf(#[trigger] cmds@[k], *slot as nat) by {
                if k < old_cmds.len() {
                    assert(cmds@[k] == old_cmds[k]);
                } else {
                    assert(cmds@[k] == new_cmd);
                }
            }
            assert(spelled(new_cmd, tok));
            assert(commands(s, i as int, slot_before as nat) == then(
                seq![tok],
                commands(s, r.pos as int, *slot as nat),
            ));
            lemma_then(ts, seq![tok], commands(s, r.pos as int, *slot as nat));
            lemma_spelled_push(old_cmds, ts, new_cmd, tok);
            ts = ts + seq![tok];
        }
        if r.peek() == Some('}') {
            assert(ts + Seq::<Token>::empty() =~= ts);
            break;
        }
    }
    Ok(cmds)
}

/// Reads one instruction: an optional address and its commands. Placeholders
/// in the address are resolved, except for the `Final` marker.
pub fn parse_instruction(r: &mut Reader, slot: &mut usize) -> (res: Result<(Address, Vec<Command>), Error>)
    requires
        old(r).wf(),
        *old(slot) <= old(r).pos,
    ensures
        final(r).wf(),
        final(r).chars == old(r).chars,
        old(r).pos <= final(r).pos,
        *old(slot) <= *final(slot) <= final(r).pos,
        res is Ok ==> (char_at(old(r).chars@, old(r).pos as int) matches Some(c) && c != '}'
            ==> old(r).pos < final(r).pos),
        res matches Ok((a, cmds)) ==> slots_below(a, *final(slot) as nat) && (a is Final
            || resolved(a)) && forall|i: int|
            0 <= i < cmds.len() ==> command_wf(#[trigger] cmds@[i], *final(slot) as nat),
        match instruction(old(r).chars@, old(r).pos as int, *old(slot) as nat) {
            Instr::Done(sh, ts, e, k) => res matches Ok((a, cmds)) && shaped(a, sh) && spelled_all(
                cmds@,
                ts,
            ) && final(r).pos == e && *final(slot) == k,
            Instr::Failed(f) => res matches Err(x) && fault_of(x) == f,
            Instr::Opaque => false,
        },
    decreases old(r).chars.len() - old(r).pos, 1int,
{
    let ghost s = r.chars@;
    r.skip_whitespace();
    let ghost sa = address(s, r.pos as int, *slot as nat);
    let a = parse_address::parse(r, slot)?;
    let ghost sh = sa->Ok_0.0;
    let ghost slot_mid = *slot;
    r.skip_whitespace();
    let cmds = parse_commands(r, slot)?;
    proof {
        lemma_slots_grow(a, slot_mid as nat, *slot as nat);
        lemma_has_deferred(a, sh);
    }
    if let Address::Final = a {
        return Ok((a, cmds));
    }
    let first = if cmds.len() > 0 { Some(&cmds[0]) } else { None };
    let a2 = resolve(a, first)?;
    proof {
        if let Some(Command::Substitute(p, _, _)) = first {
            lemma_replaced(a, a2, p@, *slot as nat);
            lemma_resolved_shape(a, sh, a2, p@);
        }
    }
    Ok((a2, cmds))
}

/// The shape `sh` with each `Deferred` replaced by the pattern `p`.
pub open spec fn resolve_shape(sh: Shape, p: Seq<char>) -> Shape
    decreases sh, 0nat,
{
    match sh {
        Shape::Deferred => Shape::Pattern(p),
        Shape::Negate(x) => Shape::Negate(Box::new(resolve_shape(*x, p))),
        Shape::Range(l, r, k) => Shape::Range(
            Box::new(resolve_shape(*l, p)),
            Box::new(resolve_shape(*r, p)),
            k,
        ),
        Shape::AnySet(w) => Shape::AnySet(resolve_list(w, p, w.len())),
        _ => sh,
    }
}

/// The first `n` shapes of `w`, each resolved with `p`.
pub open spec fn resolve_list(w: Seq<Shape>, p: Seq<char>, n: nat) -> Seq<Shape>
    decreases w, n,
{
    if n == 0 || n > w.len() {
        Seq::empty()
    } else {
        resolve_list(w, p, (n - 1) as nat).push(resolve_shape(w[n - 1], p))
    }
}

proof fn lemma_resolve_list(w: Seq<Shape>, p: Seq<char>, n: nat)
    requires
        n <= w.len(),
    ensures
        resolve_list(w, p, n).len() == n,
        forall|i: int| 0 <= i < n ==> #[trigger] resolve_list(w, p, n)[i] == resolve_shape(w[i], p),
    decreases n,
{
    if n > 0 {
        lemma_resolve_list(w, p, (n - 1) as nat);
    }
}

/// Whether the shape holds a `Deferred` placeholder.
pub open spec fn has_deferred(sh: Shape) -> bool
    decreases sh,
{
    match sh {
        Shape::Deferred => true,
        Shape::Negate(x) => has_deferred(*x),
        Shape::Range(l, r, _) => has_deferred(*l) || has_deferred(*r),
        Shape::AnySet(w) => exists|i: int| 0 <= i < w.len() && has_deferred(#[trigger] w[i]),
        _ => false,
    }
}

proof fn lemma_resolved_shape(a: Address, sh: Shape, b: Address, p: Seq<char>)
    requires
        shaped(a, sh),
        replaced_by(a, b, p),
    ensures
        shaped(b, resolve_shape(sh, p)),
    decreases a,
{
    match a {
        Address::Negate(x) => lemma_resolved_shape(*x, *sh->Negate_0, *b->Negate_0, p),
        Address::Range(l, r, _) => {
            lemma_resolved_shape(*l, *sh->Range_0, *b->Range_0, p);
            lemma_resolved_shape(*r, *sh->Range_1, *b->Range_1, p);
        },
        Address::AnySet(v) => {
            let w = sh->AnySet_0;
            let u = b->AnySet_0;
            lemma_resolve_list(w, p, w.len());
            assert forall|i: int| 0 <= i < u.len() implies shaped(
                #[trigger] u@[i],
                resolve_list(w, p, w.len())[i],
            ) by {
                assert(decreases_to!(a => a->AnySet_0));
                assert(decreases_to!(a->AnySet_0 => a->AnySet_0@));
                assert(decreases_to!(v@ => v@[i]));
                lemma_resolved_shape(v@[i], w[i], u@[i], p);
            }
        },
        _ => {},
    }
}

proof fn lemma_has_deferred(a: Address, sh: Shape)
    requires
        shaped(a, sh),
    ensures
        resolved(a) == !has_deferred(sh),
    decreases a,
{
    match a {
        Address::Negate(x) => lemma_has_deferred(*x, *sh->Negate_0),
        Address::Range(l, r, _) => {
            lemma_has_deferred(*l, *sh->Range_0);
            lemma_has_deferred(*r, *sh->Range_1);
        },
        Address::AnySet(v) => {
            let w = sh->AnySet_0;
            assert forall|i: int| 0 <= i < w.len() implies resolved(#[trigger] v@[i]) == !has_deferred(
                w[i],
            ) by {
                assert(decreases_to!(a => a->AnySet_0));
                assert(decreases_to!(a->AnySet_0 => a->AnySet_0@));
                assert(decreases_to!(v@ => v@[i]));
                lemma_has_deferred(v@[i], w[i]);
            }
            if !resolved(a) {
                let i = choose|i: int| 0 <= i < v.len() && !resolved(#[trigger] v@[i]);
                assert(has_deferred(w[i]));
            }
            if has_deferred(sh) {
                let i = choose|i: int| 0 <= i < w.len() && has_deferred(#[trigger] w[i]);
                assert(!resolved(v@[i]));
            }
        },
        _ => {},
    }
}

/// What reading an instruction gives: its address, resolved, and its
/// commands, with the position after them and the next free range slot; or
/// why the script is refused (`Opaque` as in `Parsed`).
pub enum Instr {
    Done(Shape, Seq<Token>, int, nat),
    Failed(Fault),
    Opaque,
}

/// The instruction at `i` (after whitespace), whose first range takes slot
/// `k`. A `$` address is kept as it is; otherwise `?` placeholders take the
/// pattern of the first command, which must then be a substitution.
pub open spec fn instruction(s: Seq<char>, i: int, k: nat) -> Instr
    decreases s.len() - i, 1int,
{
    match address(s, skip_spaces(s, i), k) {
        Err(f) => Instr::Failed(f),
        Ok((sh, e, k1)) => {
            let j = skip_spaces(s, e);
            if !(i <= j <= s.len()) {
                Instr::Opaque
            } else {
                match commands(s, j, k1) {
                    Parsed::Failed(f) => Instr::Failed(f),
                    Parsed::Opaque => Instr::Opaque,
                    Parsed::Done(ts, e2, k2) => if sh is Final {
                        Instr::Done(sh, ts, e2, k2)
                    } else if ts.len() > 0 && ts[0] is Subst {
                        Instr::Done(resolve_shape(sh, ts[0]->Subst_0), ts, e2, k2)
                    } else if has_deferred(sh) {
                        Instr::Failed(Fault::Plain(Error::DeferredWithoutSubstitution))
                    } else {
                        Instr::Done(sh, ts, e2, k2)
                    },
                }
            }
        },
    }
}

/// Reads the instructions of a loop body after its `{`, the closing `}` included.
pub fn parse_block(r: &mut Reader, slot: &mut usize) -> (res: Result<Vec<Action>, Error>)
    requires
        old(r).wf(),
        *old(slot) <= old(r).pos,
    ensures
        final(r).wf(),
        final(r).chars == old(r).chars,
        old(r).pos <= final(r).pos,
        *old(slot) <= *final(slot) <= final(r).pos,
        res matches Ok(acts) ==> wf_actions(acts@, *final(slot) as nat),
        match block(old(r).chars@, old(r).pos as int, *old(slot) as nat, Seq::empty()) {
            Parsed::Done(steps, e, k) => res matches Ok(acts) && stream(acts@, steps) && final(r).pos
                == e && *final(slot) == k,
            Parsed::Failed(f) => res matches Err(x) && fault_of(x) == f,
            Parsed::Opaque => false,
        },
    decreases old(r).chars.len() - old(r).pos, 2int,
{
    let ghost s = r.chars@;
    let ghost whole = block(s, r.pos as int, *slot as nat, Seq::empty());
    let ghost acc: Seq<Step> = Seq::empty();
    let mut acts: Vec<Action> = Vec::new();
    loop
        invariant_except_break
            stream(acts@, acc),
            whole == block(s, r.pos as int, *slot as nat, acc),
        invariant
            r.wf(),
            r.chars == old(r).chars,
            s == r.chars@,
            whole == block(s, old(r).pos as int, *old(slot) as nat, Seq::empty()),
            old(r).pos <= r.pos,
            *old(slot) <= *slot <= r.pos,
            wf_actions(acts@, *slot as nat),
        ensures
            r.wf(),
            r.chars == old(r).chars,
            old(r).pos <= r.pos,
            *old(slot) <= *slot <= r.pos,
            wf_actions(acts@, *slot as nat),
            stream(acts@, acc),
            whole == Parsed::Done(acc, r.pos as int, *slot as nat),
        decreases r.chars.len() - r.pos,
    {
        let ghost i = r.pos as int;
        r.skip_whitespace();
        match r.peek() {
            None => return Err(Error::Missing('}')),
            Some('}') => {
                r.next();
                break;
            },
            _ => {},
        }
        let ghost slot_before = *slot;
        let (a, cmds) = parse_instruction(r, slot)?;
        proof {
            lemma_wf_grow(acts@, slot_before as nat, *slot as nat);
        }
        let ghost old_acts = acts@;
        let ghost added = cmds@;
        let ghost ins = instruction(s, skip_spaces(s, i), slot_before as nat);
        push_instruction(&mut acts, a, cmds, Ghost(*slot as nat));
        proof {
            let sh = ins->Done_0;
            let ts = ins->Done_1;
            lemma_stream_push(old_acts, acc, a, sh, added, ts);
            acc = acc + steps_of(sh, ts);
        }
    }
    Ok(acts)
}

} // verus!
