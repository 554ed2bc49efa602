//! The address grammar: `term (',' term)*`, where a term is an atom, a range
//! `atom '-' atom`, or an address in brackets, each optionally followed by `!`.
use vstd::prelude::*;

use crate::address::{lemma_slots_grow, negated, slots_below, Address};
use crate::error::{fault_of, Error, Fault};
use crate::pattern::{regex_accepts, Pattern};
use crate::reader::{char_at, decimal, decimal_value, digits_end, is_digit, line_end, skip_spaces, Reader};
use crate::scan::{read_regex, regex_literal};
use crate::text::string_of;

verus! {

/// What `parse_regex` returns for the literal that starts at `i`, and where it stops.
pub open spec fn regex_parsed(s: Seq<char>, i: int, res: Result<Option<Pattern>, Error>, end: int) -> bool {
    match regex_literal(s, i) {
        Err(x) => res == Err::<Option<Pattern>, Error>(x),
        Ok((o, e)) => end == e && if o.len() == 0 {
            res == Ok::<Option<Pattern>, Error>(None)
        } else if regex_accepts(o) {
            res matches Ok(Some(p)) && p@ == o
        } else {
            res matches Err(Error::InvalidRegex(t)) && t@ == o
        },
    }
}

/// Reads a regular expression literal and compiles it; an empty one gives `None`.
pub fn parse_regex(r: &mut Reader) -> (res: Result<Option<Pattern>, Error>)
    requires
        old(r).wf(),
        char_at(old(r).chars@, old(r).pos as int) == Some('/') || char_at(
            old(r).chars@,
            old(r).pos as int,
        ) == Some('^'),
    ensures
        final(r).wf(),
        final(r).chars == old(r).chars,
        old(r).pos <= final(r).pos,
        regex_parsed(old(r).chars@, old(r).pos as int, res, final(r).pos as int),
{
    let text = read_regex(r)?;
    if text.len() == 0 {
        return Ok(None);
    }
    let src = string_of(&text);
    match Pattern::new(src.as_str()) {
        Some(p) => Ok(Some(p)),
        None => Err(Error::InvalidRegex(src)),
    }
}

/// An address as contracts describe it: a pattern is its text.
pub enum Shape {
    Always,
    Final,
    Location(usize),
    Pattern(Seq<char>),
    Negate(Box<Shape>),
    Range(Box<Shape>, Box<Shape>, usize),
    AnySet(Seq<Shape>),
    Deferred,
}

/// `a` is the address that `sh` describes.
pub open spec fn shaped(a: Address, sh: Shape) -> bool
    decreases a,
{
    match a {
        Address::Always => sh is Always,
        Address::Final => sh is Final,
        Address::Location(n) => sh == Shape::Location(n),
        Address::Pattern(p) => sh == Shape::Pattern(p@),
        Address::Negate(x) => sh matches Shape::Negate(y) && shaped(*x, *y),
        Address::Range(l, r, k) => sh matches Shape::Range(l2, r2, k2) && k2 == k && shaped(*l, *l2)
            && shaped(*r, *r2),
        Address::AnySet(v) => sh matches Shape::AnySet(w) && w.len() == v.len() && forall|i: int|
            0 <= i < v.len() ==> shaped(#[trigger] v@[i], w[i]),
        Address::Deferred => sh is Deferred,
    }
}

pub open spec fn negated_shape(sh: Shape) -> Shape {
    match sh {
        Shape::Negate(b) => *b,
        _ => Shape::Negate(Box::new(sh)),
    }
}

/// The position after the `#` comments at `i` and the whitespace after each.
pub open spec fn past_comments(s: Seq<char>, i: int) -> int
    decreases s.len() - i,
{
    if char_at(s, i) == Some('#') {
        let j = skip_spaces(s, line_end(s, i));
        if i < j <= s.len() {
            past_comments(s, j)
        } else {
            i
        }
    } else {
        i
    }
}

/// The atom at `i` (a line number, a regular expression, `*`, `$` or `?`),
/// or `None` when none starts there, and the position after it.
pub open spec fn atom(s: Seq<char>, i: int) -> Result<(Option<Shape>, int), Fault> {
    match char_at(s, i) {
        Some('$') => Ok((Some(Shape::Final), i + 1)),
        Some('?') => Ok((Some(Shape::Deferred), i + 1)),
        Some('*') => Ok((Some(Shape::Always), i + 1)),
        Some(c) => if c == '/' || c == '^' {
            match regex_literal(s, i) {
                Err(x) => Err(Fault::Plain(x)),
                Ok((o, e)) => if o.len() == 0 {
                    Ok((Some(Shape::Always), e))
                } else if regex_accepts(o) {
                    Ok((Some(Shape::Pattern(o)), e))
                } else {
                    Err(Fault::BadRegex(o))
                },
            }
        } else if is_digit(c) {
            let e = digits_end(s, i);
            let v = decimal_value(s.subrange(i, e));
            if v == 0 {
                Err(Fault::Plain(Error::InvalidAddress))
            } else if v > usize::MAX {
                Err(Fault::Plain(Error::NumberTooLarge))
            } else {
                Ok((Some(Shape::Location(v as usize)), e))
            }
        } else {
            Ok((None, i))
        },
        None => Ok((None, i)),
    }
}

/// The atom after the comments at `i`.
pub open spec fn simple(s: Seq<char>, i: int) -> Result<(Option<Shape>, int), Fault> {
    atom(s, past_comments(s, i))
}

/// A range `lhs '-' rhs` at `i` whose flag takes slot `k` (a missing left end
/// is line 1, a missing right end `Final`, and two line numbers must not run
/// backwards), or the lone atom (`Always` when there is none); the position
/// after it and the next free slot.
pub open spec fn range_at(s: Seq<char>, i: int, k: nat) -> Result<(Shape, int, nat), Fault> {
    match simple(s, i) {
        Err(f) => Err(f),
        Ok((a, e1)) => {
            let j = skip_spaces(s, e1);
            if char_at(s, j) == Some('-') {
                let lhs = match a {
                    Some(x) => x,
                    None => Shape::Location(1),
                };
                match simple(s, skip_spaces(s, j + 1)) {
                    Err(f) => Err(f),
                    Ok((b, e2)) => {
                        let rhs = match b {
                            Some(x) => x,
                            None => Shape::Final,
                        };
                        if lhs matches Shape::Location(lo) && rhs matches Shape::Location(hi) && lo > hi {
                            Err(Fault::Plain(Error::InvalidAddress))
                        } else {
                            Ok((Shape::Range(Box::new(lhs), Box::new(rhs), k as usize), e2, k + 1))
                        }
                    },
                }
            } else {
                Ok(
                    (
                        match a {
                            Some(x) => x,
                            None => Shape::Always,
                        },
                        j,
                        k,
                    ),
                )
            }
        },
    }
}

/// Takes a `!` at `j` as a negation.
pub open spec fn negate_at(s: Seq<char>, j: int, a: Shape, k: nat) -> Result<(Shape, int, nat), Fault> {
    if char_at(s, j) == Some('!') {
        Ok((negated_shape(a), j + 1, k))
    } else {
        Ok((a, j, k))
    }
}

/// A term at `i`: an address in brackets or a range, with an optional `!`.
/// Positions only move forward, which the guards on the recursive calls state.
pub open spec fn term(s: Seq<char>, i: int, k: nat) -> Result<(Shape, int, nat), Fault>
    decreases s.len() - i, 0int,
{
    if char_at(s, i) == Some('(') {
        let j = skip_spaces(s, i + 1);
        if i < j <= s.len() {
            match members(s, j, k, Seq::empty(), false) {
                Err(f) => Err(f),
                Ok((a, e, k2)) => {
                    let j2 = skip_spaces(s, e);
                    if char_at(s, j2) != Some(')') {
                        Err(Fault::Plain(Error::Missing(')')))
                    } else {
                        negate_at(s, j2 + 1, a, k2)
                    }
                },
            }
        } else {
            Err(Fault::Plain(Error::Missing(')')))
        }
    } else {
        match range_at(s, i, k) {
            Err(f) => Err(f),
            Ok((a, e, k2)) => negate_at(s, skip_spaces(s, e), a, k2),
        }
    }
}

/// The terms from `i` on, separated by commas, after the members `acc` already
/// read (`any` when one of them was `Always`): sets among them are taken
/// apart, an `Always` member makes the whole address `Always`, and a single
/// member stands for itself.
pub open spec fn members(s: Seq<char>, i: int, k: nat, acc: Seq<Shape>, any: bool) -> Result<
    (Shape, int, nat),
    Fault,
>
    decreases s.len() - i, 1int,
{
    match term(s, i, k) {
        Err(f) => Err(f),
        Ok((a, e, k2)) => {
            let acc2 = match a {
                Shape::Always => acc,
                Shape::AnySet(v) => acc + v,
                _ => acc.push(a),
            };
            let any2 = any || a is Always;
            let j = skip_spaces(s, e);
            if char_at(s, j) == Some(',') {
                let j2 = skip_spaces(s, j + 1);
                if i < j2 <= s.len() {
                    members(s, j2, k2, acc2, any2)
                } else {
                    Err(Fault::Plain(Error::Unexpected(',')))
                }
            } else {
                Ok(
                    (
                        if any2 {
                            Shape::Always
                        } else if acc2.len() == 1 {
                            acc2[0]
                        } else {
                            Shape::AnySet(acc2)
                        },
                        j,
                        k2,
                    ),
                )
            }
        },
    }
}

/// The address at `i` whose first range takes slot `k`, the position after it
/// and the next free slot.
pub open spec fn address(s: Seq<char>, i: int, k: nat) -> Result<(Shape, int, nat), Fault> {
    members(s, i, k, Seq::empty(), false)
}

/// Skips comments (`#` to the end of the line) and the whitespace after them.
fn skip_comments(r: &mut Reader)
    requires
        old(r).wf(),
    ensures
        final(r).wf(),
        final(r).chars == old(r).chars,
        old(r).pos <= final(r).pos,
        char_at(final(r).chars@, final(r).pos as int) != Some('#'),
        final(r).pos == past_comments(old(r).chars@, old(r).pos as int),
{
    proof {
        crate::reader::lemma_line_end(r.chars@, r.pos as int);
    }
    while r.peek() == Some('#')
        invariant
            r.wf(),
            r.chars == old(r).chars,
            old(r).pos <= r.pos,
            past_comments(r.chars@, r.pos as int) == past_comments(old(r).chars@, old(r).pos as int),
        decreases r.chars.len() - r.pos,
    {
        proof {
            crate::reader::lemma_line_end(r.chars@, r.pos as int);
        }
        r.skip_line();
        r.skip_whitespace();
    }
}

/// Reads an atom: a line number, a regular expression, `*`, `$` or `?`; `None` when
/// none starts here.
fn parse_simple_addr(r: &mut Reader) -> (res: Result<Option<Address>, Error>)
    requires
        old(r).wf(),
    ensures
        final(r).wf(),
        final(r).chars == old(r).chars,
        old(r).pos <= final(r).pos,
        res matches Ok(Some(a)) ==> slots_below(a, 0) && !(a is AnySet) && flat(a),
        match simple(old(r).chars@, old(r).pos as int) {
            Ok((a, e)) => final(r).pos == e && match res {
                Ok(Some(x)) => a matches Some(y) && shaped(x, y),
                Ok(None) => a is None,
                Err(_) => false,
            },
            Err(f) => res matches Err(x) && fault_of(x) == f,
        },
{
    skip_comments(r);
    match r.peek() {
        Some('/') | Some('^') => {
            proof {
                crate::scan::lemma_scan_ends(r.chars@, r.pos + 1, seq![('/', false)], crate::scan::Mode::Text);
                crate::scan::lemma_scan_ends(r.chars@, r.pos + 1, seq![('$', false)], crate::scan::Mode::Text);
            }
            match parse_regex(r)? {
                Some(p) => Ok(Some(Address::Pattern(p))),
                None => Ok(Some(Address::Always)),
            }
        },
        Some('$') => {
            r.next();
            Ok(Some(Address::Final))
        },
        Some('?') => {
            r.next();
            Ok(Some(Address::Deferred))
        },
        Some('*') => {
            r.next();
            Ok(Some(Address::Always))
        },
        Some(c) => {
            if crate::reader::is_digit_char(c) {
                let start = r.pos;
                let digits = r.read_integer();
                proof {
                    let s = r.chars@;
                    crate::reader::lemma_digits_end(s, start as int);
                    assert forall|k: int| 0 <= k < digits.len() implies is_digit(#[trigger] digits@[k]) by {
                        assert(digits@[k] == s[start + k]);
                    }
                }
                match decimal(&digits) {
                    Some(0) => Err(Error::InvalidAddress),
                    Some(n) => Ok(Some(Address::Location(n))),
                    None => Err(Error::NumberTooLarge),
                }
            } else {
                Ok(None)
            }
        },
        None => Ok(None),
    }
}

/// Takes a trailing `!` as a negation of `a`.
fn maybe_negate(a: Address, r: &mut Reader) -> (res: Address)
    requires
        old(r).wf(),
    ensures
        final(r).wf(),
        final(r).chars == old(r).chars,
        res == if char_at(old(r).chars@, old(r).pos as int) == Some('!') {
            negated(a)
        } else {
            a
        },
        final(r).pos == if char_at(old(r).chars@, old(r).pos as int) == Some('!') {
            old(r).pos + 1
        } else {
            old(r).pos as int
        },
{
    if r.next_is('!') {
        a.negate()
    } else {
        a
    }
}

/// The shape that address parsing gives a set: at least two members, none of
/// them a set or `Always` (an `Always` member makes the whole set `Always`).
pub open spec fn flat(a: Address) -> bool
    decreases a,
{
    match a {
        Address::AnySet(v) => v.len() >= 2 && forall|i: int|
            0 <= i < v.len() ==> !(#[trigger] v@[i] is AnySet) && !(v@[i] is Always) && flat(v@[i]),
        Address::Negate(b) => flat(*b),
        Address::Range(lhs, rhs, _) => flat(*lhs) && flat(*rhs),
        _ => true,
    }
}

proof fn lemma_negated_keeps(a: Address, n: nat)
    ensures
        slots_below(negated(a), n) == slots_below(a, n),
        flat(a) ==> flat(negated(a)),
{
    if !(a is Negate) {
        assert(slots_below(Address::Negate(Box::new(a)), n) == slots_below(a, n));
        assert(flat(Address::Negate(Box::new(a))) == flat(a));
    }
}

/// Reads an atom, or a range of two atoms; a missing left end is line 1, a
/// missing right end is `Final`, and no atom at all is `Always`.
fn parse_range(r: &mut Reader, slot: &mut usize) -> (res: Result<Address, Error>)
    requires
        old(r).wf(),
        *old(slot) <= old(r).pos,
    ensures
        final(r).wf(),
        final(r).chars == old(r).chars,
        old(r).pos <= final(r).pos,
        *old(slot) <= *final(slot) <= final(r).pos,
        res matches Ok(a) ==> slots_below(a, *final(slot) as nat) && flat(a),
        match range_at(old(r).chars@, old(r).pos as int, *old(slot) as nat) {
            Ok((sh, e, k)) => res matches Ok(a) && shaped(a, sh) && final(r).pos == e && *final(slot) == k,
            Err(f) => res matches Err(x) && fault_of(x) == f,
        },
{
    let ghost s = r.chars@;
    let ghost sa = simple(s, r.pos as int);
    let a = parse_simple_addr(r)?;
    r.skip_whitespace();
    if r.next_is('-') {
        let lhs = match a {
            Some(x) => x,
            None => Address::Location(1),
        };
        r.skip_whitespace();
        let ghost sb = simple(s, r.pos as int);
        let rhs = match parse_simple_addr(r)? {
            Some(x) => x,
            None => Address::Final,
        };
        let ghost lsh = match sa->Ok_0.0 {
            Some(x) => x,
            None => Shape::Location(1),
        };
        let ghost rsh = match sb->Ok_0.0 {
            Some(x) => x,
            None => Shape::Final,
        };
        assert(shaped(lhs, lsh));
        assert(shaped(rhs, rsh));
        assert((lhs is Location) == (lsh is Location));
        assert((rhs is Location) == (rsh is Location));
        if let (Address::Location(lo), Address::Location(hi)) = (&lhs, &rhs) {
            if *lo > *hi {
                return Err(Error::InvalidAddress);
            }
        }
        let k = *slot;
        *slot = k + 1;
        proof {
            lemma_slots_grow(lhs, 0, *slot as nat);
            lemma_slots_grow(rhs, 0, *slot as nat);
            assert(flat(lhs) && flat(rhs));
            let ra = Address::Range(Box::new(lhs), Box::new(rhs), k);
            assert(slots_below(ra, *slot as nat));
            assert(flat(ra));
        }
        return Ok(Address::Range(Box::new(lhs), Box::new(rhs), k));
    }
    match a {
        Some(x) => {
            proof {
                lemma_slots_grow(x, 0, *slot as nat);
            }
            Ok(x)
        },
        None => Ok(Address::Always),
    }
}

/// Reads a term: an address in brackets or a range, with an optional `!`.
fn parse_brackets(r: &mut Reader, slot: &mut usize) -> (res: Result<Address, Error>)
    requires
        old(r).wf(),
        *old(slot) <= old(r).pos,
    ensures
        final(r).wf(),
        final(r).chars == old(r).chars,
        old(r).pos <= final(r).pos,
        *old(slot) <= *final(slot) <= final(r).pos,
        res matches Ok(a) ==> slots_below(a, *final(slot) as nat) && flat(a),
        match term(old(r).chars@, old(r).pos as int, *old(slot) as nat) {
            Ok((sh, e, k)) => res matches Ok(a) && shaped(a, sh) && final(r).pos == e && *final(slot) == k,
            Err(f) => res matches Err(x) && fault_of(x) == f,
        },
    decreases old(r).chars.len() - old(r).pos, 0int,
{
    if r.next_is('(') {
        r.skip_whitespace();
        let a = parse(r, slot)?;
        r.skip_whitespace();
        if r.next() != Some(')') {
            return Err(Error::Missing(')'));
        }
        proof {
            lemma_negated_keeps(a, *slot as nat);
        }
        Ok(maybe_negate(a, r))
    } else {
        let a = parse_range(r, slot)?;
        r.skip_whitespace();
        proof {
            lemma_negated_keeps(a, *slot as nat);
        }
        Ok(maybe_negate(a, r))
    }
}

/// Reads an address: terms separated by commas. Members that are sets are
/// taken apart, and a member that is `Always` makes the whole address `Always`.
pub fn parse(r: &mut Reader, slot: &mut usize) -> (res: Result<Address, Error>)
    requires
        old(r).wf(),
        *old(slot) <= old(r).pos,
    ensures
        final(r).wf(),
        final(r).chars == old(r).chars,
        old(r).pos <= final(r).pos,
        *old(slot) <= *final(slot) <= final(r).pos,
        res matches Ok(a) ==> slots_below(a, *final(slot) as nat) && flat(a),
        match address(old(r).chars@, old(r).pos as int, *old(slot) as nat) {
            Ok((sh, e, k)) => res matches Ok(a) && shaped(a, sh) && final(r).pos == e && *final(slot) == k,
            Err(f) => res matches Err(x) && fault_of(x) == f,
        },
    decreases old(r).chars.len() - old(r).pos, 1int,
{
    let ghost s = r.chars@;
    let ghost start = r.pos as int;
    let ghost k0 = *slot as nat;
    let ghost acc: Seq<Shape> = Seq::empty();
    let mut addrs: Vec<Address> = Vec::new();
    let mut has_any = false;
    loop
        invariant_except_break
            address(s, start, k0) == members(s, r.pos as int, *slot as nat, acc, has_any),
        invariant
            r.wf(),
            r.chars == old(r).chars,
            s == r.chars@,
            start == old(r).pos,
            k0 == *old(slot),
            old(r).pos <= r.pos,
            *old(slot) <= *slot <= r.pos,
            forall|i: int| 0 <= i < addrs.len() ==> slots_below(#[trigger] addrs@[i], *slot as nat)
                && !(addrs@[i] is AnySet) && !(addrs@[i] is Always) && flat(addrs@[i]),
            addrs.len() == acc.len(),
            forall|i: int| 0 <= i < addrs.len() ==> shaped(#[trigger] addrs@[i], acc[i]),
        ensures
            has_any || addrs.len() >= 1,
            address(s, start, k0) == Ok::<(Shape, int, nat), Fault>(
                (
                    if has_any {
                        Shape::Always
                    } else if acc.len() == 1 {
                        acc[0]
                    } else {
                        Shape::AnySet(acc)
                    },
                    r.pos as int,
                    *slot as nat,
                ),
            ),
        decreases r.chars.len() - r.pos,
    {
        let ghost before = r.pos as int;
        let ghost slot_before = *slot;
        let ghost t = term(s, before, slot_before as nat);
        let a = parse_brackets(r, slot)?;
        let ghost sh = t->Ok_0.0;
        proof {
            assert forall|i: int| 0 <= i < addrs.len() implies slots_below(#[trigger] addrs@[i], *slot as nat) by {
                lemma_slots_grow(addrs@[i], slot_before as nat, *slot as nat);
            }
            assert(shaped(a, sh));
        }
        let ghost acc2 = match sh {
            Shape::Always => acc,
            Shape::AnySet(w) => acc + w,
            _ => acc.push(sh),
        };
        match a {
            Address::Always => {
                has_any = true;
            },
            Address::AnySet(mut v) => {
                let ghost old_addrs = addrs@;
                let ghost vs = v@;
                addrs.append(&mut v);
                proof {
                    let w = sh->AnySet_0;
                    assert forall|i: int| 0 <= i < addrs.len() implies slots_below(#[trigger] addrs@[i], *slot as nat)
                        && !(addrs@[i] is AnySet) && !(addrs@[i] is Always) && flat(addrs@[i]) by {
                        if i >= old_addrs.len() {
                            assert(addrs@[i] == a->AnySet_0@[i - old_addrs.len()]);
                        }
                    }
                    assert forall|i: int| 0 <= i < addrs.len() implies shaped(#[trigger] addrs@[i], acc2[i]) by {
                        if i >= old_addrs.len() {
                            assert(addrs@[i] == vs[i - old_addrs.len()]);
                            assert(acc2[i] == w[i - old_addrs.len()]);
                        } else {
                            assert(addrs@[i] == old_addrs[i]);
                            assert(acc2[i] == acc[i]);
                        }
                    }
                }
            },
            other => {
                let ghost old_addrs = addrs@;
                addrs.push(other);
                proof {
                    assert forall|i: int| 0 <= i < addrs.len() implies shaped(#[trigger] addrs@[i], acc2[i]) by {
                        if i < old_addrs.len() {
                            assert(addrs@[i] == old_addrs[i]);
                        }
                    }
                }
            },
        }
        proof {
            acc = acc2;
        }
        r.skip_whitespace();
        if r.next_is(',') {
            r.skip_whitespace();
        } else {
            break;
        }
    }
    if has_any {
        return Ok(Address::Always);
    }
    if addrs.len() == 1 {
        proof {
            assert(slots_below(addrs@[0], *slot as nat) && flat(addrs@[0]));
            assert(shaped(addrs@[0], acc[0]));
        }
        return Ok(addrs.remove(0));
    }
    Ok(Address::AnySet(addrs))
}

} // verus!
