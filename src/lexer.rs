//! The pieces of text inside commands: substitution templates, quoted
//! strings, character-index ranges and counts.
use vstd::prelude::*;

use crate::command::Command;
use crate::error::Error;
use crate::escape::{unescape, unescaped};
use crate::reader::{char_at, decimal, decimal_value, digits_end, is_digit, Reader};
use crate::scan::prepend;
use crate::text::string_of;

verus! {

/// The template of a substitution from `i` up to its closing `/`, before
/// escapes are decoded: `\/` stands for `/`, other escapes are kept, and each
/// run of digits is put in braces so that `$123abc` reads `${123}abc`.
/// `open` says that a run of digits is under way.
pub open spec fn template(s: Seq<char>, i: int, open: bool) -> Result<(Seq<char>, int), Error>
    decreases s.len() - i, if open { 1int } else { 0int },
{
    if i < 0 || i >= s.len() {
        Err(Error::Missing('/'))
    } else {
        let c = s[i];
        if open && !is_digit(c) {
            prepend(seq!['}'], template(s, i, false))
        } else if c == '/' {
            Ok((Seq::empty(), i + 1))
        } else if is_digit(c) {
            prepend(if open { seq![c] } else { seq!['{', c] }, template(s, i + 1, true))
        } else if c == '\\' {
            if i + 1 < s.len() {
                let e = s[i + 1];
                prepend(if e == '/' { seq![e] } else { seq!['\\', e] }, template(s, i + 2, false))
            } else {
                Err(Error::Missing('/'))
            }
        } else {
            prepend(seq![c], template(s, i + 1, false))
        }
    }
}

pub proof fn lemma_template_fails(s: Seq<char>, i: int, open: bool)
    ensures
        template(s, i, open) matches Err(x) ==> x == Error::Missing('/'),
    decreases s.len() - i, if open { 1int } else { 0int },
{
    if 0 <= i < s.len() {
        let c = s[i];
        if open && !is_digit(c) {
            lemma_template_fails(s, i, false);
        } else if c == '/' {
        } else if is_digit(c) {
            lemma_template_fails(s, i + 1, true);
        } else if c == '\\' {
            if i + 1 < s.len() {
                lemma_template_fails(s, i + 2, false);
            }
        } else {
            lemma_template_fails(s, i + 1, false);
        }
    }
}

/// A quoted text from `i` up to its closing `delim`: an escaped `delim`
/// stands for itself, other escapes are kept for decoding.
pub open spec fn quoted(s: Seq<char>, i: int, delim: char) -> Result<(Seq<char>, int), Error>
    decreases s.len() - i,
{
    if i < 0 || i >= s.len() {
        Err(Error::Missing(delim))
    } else {
        let c = s[i];
        if c == delim {
            Ok((Seq::empty(), i + 1))
        } else if c == '\\' {
            if i + 1 < s.len() {
                let e = s[i + 1];
                prepend(if e == delim { seq![e] } else { seq!['\\', e] }, quoted(s, i + 2, delim))
            } else {
                Err(Error::Missing(delim))
            }
        } else {
            prepend(seq![c], quoted(s, i + 1, delim))
        }
    }
}

pub proof fn lemma_quoted_fails(s: Seq<char>, i: int, delim: char)
    ensures
        quoted(s, i, delim) matches Err(x) ==> x == Error::Missing(delim),
    decreases s.len() - i,
{
    if 0 <= i < s.len() {
        let c = s[i];
        if c == delim {
        } else if c == '\\' {
            if i + 1 < s.len() {
                lemma_quoted_fails(s, i + 2, delim);
            }
        } else {
            lemma_quoted_fails(s, i + 1, delim);
        }
    }
}

/// The text after decoding its escapes, or the error that names it.
pub open spec fn decoded(raw: Seq<char>, res: Result<String, Error>) -> bool {
    match unescaped(raw) {
        Some(t) => res matches Ok(v) && v@ == t,
        None => res matches Err(Error::InvalidEscape(v)) && v@ == raw,
    }
}

/// What a lexer that follows `spec_result` hands back, and where it stops.
pub open spec fn lexed(spec_result: Result<(Seq<char>, int), Error>, res: Result<String, Error>, end: int) -> bool {
    match spec_result {
        Ok((raw, e)) => end == e && decoded(raw, res),
        Err(x) => res == Err::<String, Error>(x),
    }
}

fn decode(raw: Vec<char>) -> (res: Result<String, Error>)
    ensures
        decoded(raw@, res),
{
    let text = string_of(&raw);
    match unescape(text.as_str()) {
        Some(t) => Ok(t),
        None => Err(Error::InvalidEscape(text)),
    }
}

/// Reads the template of a substitution, its closing `/` included.
pub fn read_template(r: &mut Reader) -> (res: Result<String, Error>)
    requires
        old(r).wf(),
    ensures
        final(r).wf(),
        final(r).chars == old(r).chars,
        old(r).pos <= final(r).pos,
        lexed(template(old(r).chars@, old(r).pos as int, false), res, final(r).pos as int),
{
    let ghost s = r.chars@;
    let ghost emitted: Seq<char> = Seq::empty();
    let mut acc: Vec<char> = Vec::new();
    let mut open = false;
    loop
        invariant
            r.wf(),
            r.chars == old(r).chars,
            s == r.chars@,
            old(r).pos <= r.pos,
            acc@ == emitted,
            template(s, old(r).pos as int, false) == prepend(emitted, template(s, r.pos as int, open)),
        decreases r.chars.len() - r.pos, if open { 1int } else { 0int },
    {
        let ghost before = template(s, r.pos as int, open);
        let ghost step: Seq<char>;
        let c = match r.peek() {
            Some(c) => c,
            None => return Err(Error::Missing('/')),
        };
        if open && !crate::reader::is_digit_char(c) {
            acc.push('}');
            open = false;
            proof {
                step = seq!['}'];
            }
        } else if c == '/' {
            r.next();
            proof {
                assert(emitted + Seq::<char>::empty() =~= emitted);
            }
            return decode(acc);
        } else if crate::reader::is_digit_char(c) {
            r.next();
            if !open {
                acc.push('{');
            }
            acc.push(c);
            proof {
                step = if open { seq![c] } else { seq!['{', c] };
            }
            open = true;
        } else if c == '\\' {
            r.next();
            let e = match r.next() {
                Some(e) => e,
                None => return Err(Error::Missing('/')),
            };
            if e != '/' {
                acc.push(c);
            }
            acc.push(e);
            proof {
                step = if e == '/' { seq![e] } else { seq!['\\', e] };
            }
        } else {
            r.next();
            acc.push(c);
            proof {
                step = seq![c];
            }
        }
        proof {
            assert(before == prepend(step, template(s, r.pos as int, open)));
            crate::scan::lemma_prepend(emitted, step, template(s, r.pos as int, open));
            emitted = emitted + step;
            assert(acc@ =~= emitted);
        }
    }
}

/// Reads a quoted text after its opening `delim`, the closing one included.
pub fn read_quoted(r: &mut Reader, delim: char) -> (res: Result<String, Error>)
    requires
        old(r).wf(),
    ensures
        final(r).wf(),
        final(r).chars == old(r).chars,
        old(r).pos <= final(r).pos,
        lexed(quoted(old(r).chars@, old(r).pos as int, delim), res, final(r).pos as int),
{
    let ghost s = r.chars@;
    let ghost emitted: Seq<char> = Seq::empty();
    let mut acc: Vec<char> = Vec::new();
    loop
        invariant
            r.wf(),
            r.chars == old(r).chars,
            s == r.chars@,
            old(r).pos <= r.pos,
            acc@ == emitted,
            quoted(s, old(r).pos as int, delim) == prepend(emitted, quoted(s, r.pos as int, delim)),
        decreases r.chars.len() - r.pos,
    {
        let ghost before = quoted(s, r.pos as int, delim);
        let ghost step: Seq<char>;
        let c = match r.next() {
            Some(c) => c,
            None => return Err(Error::Missing(delim)),
        };
        if c == delim {
            proof {
                assert(emitted + Seq::<char>::empty() =~= emitted);
            }
            return decode(acc);
        } else if c == '\\' {
            let e = match r.next() {
                Some(e) => e,
                None => return Err(Error::Missing(delim)),
            };
            if e != delim {
                acc.push(c);
            }
            acc.push(e);
            proof {
                step = if e == delim { seq![e] } else { seq!['\\', e] };
            }
        } else {
            acc.push(c);
            proof {
                step = seq![c];
            }
        }
        proof {
            assert(before == prepend(step, quoted(s, r.pos as int, delim)));
            crate::scan::lemma_prepend(emitted, step, quoted(s, r.pos as int, delim));
            emitted = emitted + step;
            assert(acc@ =~= emitted);
        }
    }
}

/// Reads a run of digits as a number; `None` when there is no digit, an error
/// when the number does not fit.
pub fn read_number(r: &mut Reader) -> (res: Result<Option<usize>, Error>)
    requires
        old(r).wf(),
    ensures
        final(r).wf(),
        final(r).chars == old(r).chars,
        final(r).pos == digits_end(old(r).chars@, old(r).pos as int),
        old(r).pos <= final(r).pos,
        ({
            let d = old(r).chars@.subrange(old(r).pos as int, final(r).pos as int);
            res == if d.len() == 0 {
                Ok::<Option<usize>, Error>(None)
            } else if decimal_value(d) > usize::MAX {
                Err(Error::NumberTooLarge)
            } else {
                Ok(Some(decimal_value(d) as usize))
            }
        }),
{
    let start = r.pos;
    let digits = r.read_integer();
    proof {
        crate::reader::lemma_digits_end(r.chars@, start as int);
        assert forall|k: int| 0 <= k < digits.len() implies is_digit(#[trigger] digits@[k]) by {
            assert(digits@[k] == r.chars@[start + k]);
        }
    }
    if digits.len() == 0 {
        return Ok(None);
    }
    match decimal(&digits) {
        Some(n) => Ok(Some(n)),
        None => Err(Error::NumberTooLarge),
    }
}

/// The `k` command that the text at `i` describes: `[S][-[E]]` with 1-based
/// `S` (1 when left out) and `E`, kept as the number of characters to skip and
/// the number to take; an `S` of `0`, or an `E` of `0` or below `S`, is refused.
pub open spec fn keep_spec(s: Seq<char>, i: int) -> Result<(Command, int), Error> {
    let e1 = digits_end(s, i);
    let d1 = s.subrange(i, e1);
    let v1 = decimal_value(d1);
    if d1.len() > 0 && v1 > usize::MAX {
        Err(Error::NumberTooLarge)
    } else if d1.len() > 0 && v1 == 0 {
        Err(Error::InvalidIndex)
    } else {
        let skip: nat = if d1.len() == 0 { 0 } else { (v1 - 1) as nat };
        if char_at(s, e1) != Some('-') {
            Ok((Command::Keep(skip as usize, Some(1)), e1))
        } else {
            let e2 = digits_end(s, e1 + 1);
            let d2 = s.subrange(e1 + 1, e2);
            let v2 = decimal_value(d2);
            if d2.len() == 0 {
                Ok((Command::Keep(skip as usize, None), e2))
            } else if v2 > usize::MAX {
                Err(Error::NumberTooLarge)
            } else if v2 == 0 || v2 < skip + 1 {
                Err(Error::InvalidIndex)
            } else {
                Ok((Command::Keep(skip as usize, Some((v2 - skip) as usize)), e2))
            }
        }
    }
}

/// Reads the character range of a `k` command.
pub fn parse_keep(r: &mut Reader) -> (res: Result<Command, Error>)
    requires
        old(r).wf(),
    ensures
        final(r).wf(),
        final(r).chars == old(r).chars,
        old(r).pos <= final(r).pos,
        match keep_spec(old(r).chars@, old(r).pos as int) {
            Ok((c, e)) => res == Ok::<Command, Error>(c) && final(r).pos == e,
            Err(x) => res == Err::<Command, Error>(x),
        },
{
    proof {
        crate::reader::lemma_digits_end(r.chars@, r.pos as int);
    }
    let lhs = match read_number(r)? {
        None => 0,
        Some(0) => return Err(Error::InvalidIndex),
        Some(n) => n - 1,
    };
    if !r.next_is('-') {
        return Ok(Command::Keep(lhs, Some(1)));
    }
    proof {
        crate::reader::lemma_digits_end(r.chars@, r.pos as int);
    }
    match read_number(r)? {
        None => Ok(Command::Keep(lhs, None)),
        Some(n) => {
            if n == 0 || n <= lhs {
                Err(Error::InvalidIndex)
            } else {
                Ok(Command::Keep(lhs, Some(n - lhs)))
            }
        },
    }
}

} // verus!
