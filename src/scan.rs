//! Finding where an embedded regular expression ends inside a script.
//!
//! The scanner walks the literal one step at a time. It keeps a stack of open
//! groups, each with the delimiter that closes it and whether verbose mode (the
//! `x` flag) is on inside it, and a mode for what the next character means.
use vstd::prelude::*;

use crate::error::Error;
use crate::reader::{char_at, Reader};

verus! {

#[derive(Clone, Copy, Debug, PartialEq, Eq)]
pub enum Mode {
    /// Ordinary pattern text.
    Text,
    /// A verbose-mode comment, copied up to and including its newline.
    Comment,
    /// The flags after `(?`, with whether `x` is on so far.
    Flags(bool),
}

/// Puts `p` in front of the text of a successful scan.
pub open spec fn prepend(p: Seq<char>, r: Result<(Seq<char>, int), Error>) -> Result<(Seq<char>, int), Error> {
    match r {
        Ok((o, e)) => Ok((p + o, e)),
        Err(x) => Err(x),
    }
}

/// Scans `s` from `i` with the open groups `stack` (innermost last) until the
/// outermost one closes: the text copied into the literal and the position
/// after its closing delimiter, or why the literal is malformed.
pub open spec fn scan(s: Seq<char>, i: int, stack: Seq<(char, bool)>, mode: Mode) -> Result<(Seq<char>, int), Error>
    decreases s.len() - i,
{
    if stack.len() == 0 {
        Ok((Seq::empty(), i))
    } else if i < 0 || i >= s.len() {
        match mode {
            Mode::Flags(_) => Err(Error::Missing(')')),
            _ => Err(Error::Missing(stack.last().0)),
        }
    } else {
        let (delim, verbose) = stack.last();
        let c = s[i];
        match mode {
            Mode::Comment => prepend(
                seq![c],
                scan(s, i + 1, stack, if c == '\n' { Mode::Text } else { Mode::Comment }),
            ),
            Mode::Flags(local) => {
                if c == ':' {
                    prepend(seq![c], scan(s, i + 1, stack.push((')', local)), Mode::Text))
                } else if c == ')' {
                    prepend(
                        seq![c],
                        scan(s, i + 1, stack.update(stack.len() - 1, (delim, local)), Mode::Text),
                    )
                } else if c == 'x' {
                    prepend(seq![c], scan(s, i + 1, stack, Mode::Flags(true)))
                } else if c == '-' && char_at(s, i + 1) == Some('x') {
                    prepend(seq!['-', 'x'], scan(s, i + 2, stack, Mode::Flags(false)))
                } else {
                    prepend(seq![c], scan(s, i + 1, stack, Mode::Flags(local)))
                }
            },
            Mode::Text => {
                if c == delim {
                    prepend(seq![c], scan(s, i + 1, stack.drop_last(), Mode::Text))
                } else if c == '\\' {
                    if i + 1 < s.len() {
                        let e = s[i + 1];
                        prepend(
                            if e == '/' { seq![e] } else { seq!['\\', e] },
                            scan(s, i + 2, stack, Mode::Text),
                        )
                    } else {
                        Err(Error::MissingEscape)
                    }
                } else if c == '(' {
                    if char_at(s, i + 1) == Some('?') {
                        prepend(seq!['(', '?'], scan(s, i + 2, stack, Mode::Flags(verbose)))
                    } else {
                        prepend(seq![c], scan(s, i + 1, stack.push((')', verbose)), Mode::Text))
                    }
                } else if c == '#' && verbose {
                    prepend(seq![c], scan(s, i + 1, stack, Mode::Comment))
                } else {
                    prepend(seq![c], scan(s, i + 1, stack, Mode::Text))
                }
            },
        }
    }
}

/// The literal that starts at `i` with `/` (closed by `/`, which is dropped)
/// or `^` (closed by `$`, both kept), and the position after it.
pub open spec fn regex_literal(s: Seq<char>, i: int) -> Result<(Seq<char>, int), Error> {
    if char_at(s, i) == Some('/') {
        match scan(s, i + 1, seq![('/', false)], Mode::Text) {
            Ok((o, e)) => Ok((o.drop_last(), e)),
            Err(x) => Err(x),
        }
    } else {
        prepend(seq!['^'], scan(s, i + 1, seq![('$', false)], Mode::Text))
    }
}

pub(crate) proof fn lemma_prepend(a: Seq<char>, b: Seq<char>, r: Result<(Seq<char>, int), Error>)
    ensures
        prepend(a, prepend(b, r)) == prepend(a + b, r),
{
    if let Ok((o, e)) = r {
        assert(a + (b + o) =~= (a + b) + o);
    }
}

pub proof fn lemma_scan_ends(s: Seq<char>, i: int, stack: Seq<(char, bool)>, mode: Mode)
    requires
        0 <= i <= s.len(),
    ensures
        scan(s, i, stack, mode) matches Ok((o, e)) ==> i <= e <= s.len() && (stack.len() > 0
            ==> o.len() > 0 && o.last() == stack[0].0),
        scan(s, i, stack, mode) matches Err(x) ==> x is Missing || x is MissingEscape,
    decreases s.len() - i,
{
    if stack.len() > 0 && i < s.len() {
        let (delim, verbose) = stack.last();
        let c = s[i];
        match mode {
            Mode::Comment => {
                lemma_scan_ends(s, i + 1, stack, if c == '\n' { Mode::Text } else { Mode::Comment });
            },
            Mode::Flags(local) => {
                if c == ':' {
                    lemma_scan_ends(s, i + 1, stack.push((')', local)), Mode::Text);
                } else if c == ')' {
                    lemma_scan_ends(s, i + 1, stack.update(stack.len() - 1, (delim, local)), Mode::Text);
                } else if c == 'x' {
                    lemma_scan_ends(s, i + 1, stack, Mode::Flags(true));
                } else if c == '-' && char_at(s, i + 1) == Some('x') {
                    lemma_scan_ends(s, i + 2, stack, Mode::Flags(false));
                } else {
                    lemma_scan_ends(s, i + 1, stack, Mode::Flags(local));
                }
            },
            Mode::Text => {
                if c == delim {
                    lemma_scan_ends(s, i + 1, stack.drop_last(), Mode::Text);
                } else if c == '\\' {
                    if i + 1 < s.len() {
                        lemma_scan_ends(s, i + 2, stack, Mode::Text);
                    }
                } else if c == '(' {
                    if char_at(s, i + 1) == Some('?') {
                        lemma_scan_ends(s, i + 2, stack, Mode::Flags(verbose));
                    } else {
                        lemma_scan_ends(s, i + 1, stack.push((')', verbose)), Mode::Text);
                    }
                } else if c == '#' && verbose {
                    lemma_scan_ends(s, i + 1, stack, Mode::Comment);
                } else {
                    lemma_scan_ends(s, i + 1, stack, Mode::Text);
                }
            },
        }
    }
}

/// Copies the literal's text into `acc` until the group that `delim` closes
/// ends, and leaves the reader after that delimiter.
pub fn read_until(r: &mut Reader, delim: char, acc: &mut Vec<char>) -> (res: Result<(), Error>)
    requires
        old(r).wf(),
    ensures
        final(r).wf(),
        final(r).chars == old(r).chars,
        old(r).pos <= final(r).pos,
        match scan(old(r).chars@, old(r).pos as int, seq![(delim, false)], Mode::Text) {
            Ok((o, e)) => res is Ok && final(acc)@ == old(acc)@ + o && final(r).pos == e,
            Err(x) => res == Err::<(), Error>(x),
        },
{
    let ghost s = r.chars@;
    let ghost start = r.pos as int;
    let ghost emitted: Seq<char> = Seq::empty();
    let mut stack: Vec<(char, bool)> = vec![(delim, false)];
    let mut mode = Mode::Text;
    assert(stack@ =~= seq![(delim, false)]);
    while stack.len() > 0
        invariant
            r.wf(),
            r.chars@ == s,
            r.chars == old(r).chars,
            old(r).pos <= r.pos,
            s == old(r).chars@,
            start == old(r).pos,
            acc@ == old(acc)@ + emitted,
            scan(s, start, seq![(delim, false)], Mode::Text) == prepend(
                emitted,
                scan(s, r.pos as int, stack@, mode),
            ),
        decreases r.chars.len() - r.pos,
    {
        let i = r.pos;
        let top = stack.len() - 1;
        let (d, verbose) = stack[top];
        if i >= r.chars.len() {
            return Err(
                match mode {
                    Mode::Flags(_) => Error::Missing(')'),
                    _ => Error::Missing(d),
                },
            );
        }
        let c = r.chars[i];
        let ghost before = scan(s, i as int, stack@, mode);
        let ghost step: Seq<char>;
        match mode {
            Mode::Comment => {
                acc.push(c);
                r.pos = i + 1;
                if c == '\n' {
                    mode = Mode::Text;
                }
                proof {
                    step = seq![c];
                }
            },
            Mode::Flags(local) => {
                acc.push(c);
                r.pos = i + 1;
                proof {
                    step = seq![c];
                }
                if c == ':' {
                    stack.push((')', local));
                    mode = Mode::Text;
                } else if c == ')' {
                    stack.set(top, (d, local));
                    mode = Mode::Text;
                } else if c == 'x' {
                    mode = Mode::Flags(true);
                } else if c == '-' && r.peek() == Some('x') {
                    acc.push('x');
                    r.pos = i + 2;
                    mode = Mode::Flags(false);
                    proof {
                        step = seq!['-', 'x'];
                    }
                }
            },
            Mode::Text => {
                if c == d {
                    acc.push(c);
                    r.pos = i + 1;
                    stack.pop();
                    proof {
                        step = seq![c];
                    }
                } else if c == '\\' {
                    if i + 1 >= r.chars.len() {
                        return Err(Error::MissingEscape);
                    }
                    let e = r.chars[i + 1];
                    if e != '/' {
                        acc.push(c);
                    }
                    acc.push(e);
                    r.pos = i + 2;
                    proof {
                        step = if e == '/' { seq![e] } else { seq!['\\', e] };
                    }
                } else if c == '(' {
                    acc.push(c);
                    r.pos = i + 1;
                    proof {
                        step = seq![c];
                    }
                    if r.peek() == Some('?') {
                        acc.push('?');
                        r.pos = i + 2;
                        mode = Mode::Flags(verbose);
                        proof {
                            step = seq!['(', '?'];
                        }
                    } else {
                        stack.push((')', verbose));
                    }
                } else {
                    acc.push(c);
                    r.pos = i + 1;
                    if c == '#' && verbose {
                        mode = Mode::Comment;
                    }
                    proof {
                        step = seq![c];
                    }
                }
            },
        }
        proof {
            assert(before == prepend(step, scan(s, r.pos as int, stack@, mode)));
            lemma_prepend(emitted, step, scan(s, r.pos as int, stack@, mode));
            emitted = emitted + step;
            assert(acc@ =~= old(acc)@ + emitted);
        }
    }
    assert(emitted + Seq::<char>::empty() =~= emitted);
    Ok(())
}

/// Reads the regular expression literal that starts at the reader (with `/`
/// or `^`) and returns the text that the regular expression engine gets.
pub fn read_regex(r: &mut Reader) -> (res: Result<Vec<char>, Error>)
    requires
        old(r).wf(),
        char_at(old(r).chars@, old(r).pos as int) == Some('/') || char_at(
            old(r).chars@,
            old(r).pos as int,
        ) == Some('^'),
    ensures
        final(r).wf(),
        final(r).chars == old(r).chars,
        old(r).pos <= final(r).pos,
        match regex_literal(old(r).chars@, old(r).pos as int) {
            Ok((o, e)) => res matches Ok(v) && v@ == o && final(r).pos == e,
            Err(x) => res == Err::<Vec<char>, Error>(x),
        },
{
    let mut acc: Vec<char> = Vec::new();
    if r.next() == Some('/') {
        read_until(r, '/', &mut acc)?;
        proof {
            lemma_scan_ends(r.chars@, old(r).pos + 1, seq![('/', false)], Mode::Text);
        }
        acc.pop();
    } else {
        acc.push('^');
        read_until(r, '$', &mut acc)?;
    }
    Ok(acc)
}

} // verus!
