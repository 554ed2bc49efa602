//! Conditions that select the lines a group of commands applies to.
use vstd::prelude::*;

use crate::line::Line;
use crate::pattern::{regex_finds, Pattern};

verus! {

/// A condition on a line.
///
/// A `Range` keeps whether it is inside its range between lines. That flag is
/// not held in the address itself: the number in the variant is a slot in a
/// table of flags that the program owns, so that addresses stay plain values.
#[derive(Debug, PartialEq)]
pub enum Address {
    /// Every line.
    Always,
    /// No line while input is read; marks the finalize block.
    Final,
    /// The line with this index.
    Location(usize),
    /// The lines whose text the regular expression matches.
    Pattern(Pattern),
    /// The lines the inner address does not select.
    Negate(Box<Address>),
    /// From a line the first address selects through the next line the second
    /// one selects; the number is the slot of its inside flag.
    Range(Box<Address>, Box<Address>, usize),
    /// The lines any member selects, tried in order.
    AnySet(Vec<Address>),
    /// Stands for the pattern of the substitution that follows it.
    Deferred,
}

/// Whether `a` selects the line with index `index` and text `text` when the
/// range flags are `st`, and the flags afterwards.
pub open spec fn selects(a: Address, index: nat, text: Seq<char>, st: Seq<bool>) -> (bool, Seq<bool>)
    decreases a,
{
    match a {
        Address::Always => (true, st),
        Address::Final => (false, st),
        Address::Location(n) => (n == index, st),
        Address::Pattern(p) => (regex_finds(p@, text), st),
        Address::Negate(b) => {
            let (m, st1) = selects(*b, index, text, st);
            (!m, st1)
        },
        Address::Range(lhs, rhs, k) => {
            if 0 <= k < st.len() && st[k as int] {
                let (m, st1) = selects(*rhs, index, text, st);
                (true, if m { st1.update(k as int, false) } else { st1 })
            } else {
                let (m, st1) = selects(*lhs, index, text, st);
                if m {
                    let (m2, st2) = selects(*rhs, index, text, st1);
                    (true, if !m2 && k < st2.len() { st2.update(k as int, true) } else { st2 })
                } else {
                    (false, st1)
                }
            }
        },
        Address::AnySet(v) => selects_any(v@, 0, index, text, st),
        Address::Deferred => (false, st),
    }
}

/// Whether any of `items[k..]` selects the line, stopping at the first one that does.
pub open spec fn selects_any(items: Seq<Address>, k: int, index: nat, text: Seq<char>, st: Seq<bool>) -> (bool, Seq<bool>)
    decreases items, items.len() - k,
{
    if 0 <= k < items.len() {
        let (m, st1) = selects(items[k], index, text, st);
        if m {
            (true, st1)
        } else {
            selects_any(items, k + 1, index, text, st1)
        }
    } else {
        (false, st)
    }
}

/// Every range slot in `a` is below `n`.
pub open spec fn slots_below(a: Address, n: nat) -> bool
    decreases a,
{
    match a {
        Address::Negate(b) => slots_below(*b, n),
        Address::Range(lhs, rhs, k) => k < n && slots_below(*lhs, n) && slots_below(*rhs, n),
        Address::AnySet(v) => forall|i: int| 0 <= i < v.len() ==> slots_below(#[trigger] v@[i], n),
        _ => true,
    }
}

pub proof fn lemma_slots_grow(a: Address, n: nat, m: nat)
    requires
        slots_below(a, n),
        n <= m,
    ensures
        slots_below(a, m),
    decreases a,
{
    match a {
        Address::Negate(b) => lemma_slots_grow(*b, n, m),
        Address::Range(lhs, rhs, _) => {
            lemma_slots_grow(*lhs, n, m);
            lemma_slots_grow(*rhs, n, m);
        },
        Address::AnySet(v) => {
            assert forall|i: int| 0 <= i < v.len() implies slots_below(#[trigger] v@[i], m) by {
                assert(decreases_to!(a => a->AnySet_0));
                assert(decreases_to!(a->AnySet_0 => a->AnySet_0@));
                assert(decreases_to!(v@ => v@[i]));
                lemma_slots_grow(v@[i], n, m);
            }
        },
        _ => {},
    }
}

/// `a` holds no `Deferred` placeholder.
pub open spec fn resolved(a: Address) -> bool
    decreases a,
{
    match a {
        Address::Negate(b) => resolved(*b),
        Address::Range(lhs, rhs, _) => resolved(*lhs) && resolved(*rhs),
        Address::AnySet(v) => forall|i: int| 0 <= i < v.len() ==> resolved(#[trigger] v@[i]),
        Address::Deferred => false,
        _ => true,
    }
}

/// The address that selects exactly the lines `a` does not: a negation is
/// taken off, anything else is wrapped in one.
pub open spec fn negated(a: Address) -> Address {
    match a {
        Address::Negate(b) => *b,
        _ => Address::Negate(Box::new(a)),
    }
}

pub proof fn lemma_matches_len(a: Address, index: nat, text: Seq<char>, st: Seq<bool>)
    ensures
        selects(a, index, text, st).1.len() == st.len(),
    decreases a,
{
    match a {
        Address::Negate(b) => lemma_matches_len(*b, index, text, st),
        Address::Range(lhs, rhs, k) => {
            lemma_matches_len(*lhs, index, text, st);
            lemma_matches_len(*rhs, index, text, st);
            let st1 = selects(*lhs, index, text, st).1;
            lemma_matches_len(*rhs, index, text, st1);
        },
        Address::AnySet(v) => lemma_matches_any_len(v@, 0, index, text, st),
        _ => {},
    }
}

pub proof fn lemma_matches_any_len(items: Seq<Address>, k: int, index: nat, text: Seq<char>, st: Seq<bool>)
    ensures
        selects_any(items, k, index, text, st).1.len() == st.len(),
    decreases items, items.len() - k,
{
    if 0 <= k < items.len() {
        lemma_matches_len(items[k], index, text, st);
        let st1 = selects(items[k], index, text, st).1;
        lemma_matches_any_len(items, k + 1, index, text, st1);
    }
}

impl Address {
    /// Whether the address selects `line`; a range updates its flag in `st`.
    pub fn matches(&self, line: &Line, st: &mut Vec<bool>) -> (r: bool)
        requires
            slots_below(*self, old(st).len() as nat),
        ensures
            (r, final(st)@) == selects(*self, line.0 as nat, line.1@, old(st)@),
        decreases self,
    {
        proof {
            lemma_matches_len(*self, line.0 as nat, line.1@, st@);
        }
        match self {
            Address::Always => true,
            Address::Final => false,
            Address::Location(n) => *n == line.0,
            Address::Pattern(p) => p.is_match(line.1.as_str()),
            Address::Negate(b) => !b.matches(line, st),
            Address::Range(lhs, rhs, k) => {
                let k = *k;
                if st[k] {
                    proof {
                        lemma_matches_len(**rhs, line.0 as nat, line.1@, st@);
                    }
                    if rhs.matches(line, st) {
                        st.set(k, false);
                    }
                    true
                } else {
                    if lhs.matches(line, st) {
                        proof {
                            lemma_matches_len(**lhs, line.0 as nat, line.1@, old(st)@);
                        }
                        if !rhs.matches(line, st) {
                            st.set(k, true);
                        }
                        true
                    } else {
                        false
                    }
                }
            },
            Address::AnySet(v) => {
                let mut i: usize = 0;
                while i < v.len()
                    invariant
                        i <= v.len(),
                        *self == Address::AnySet(*v),
                        st.len() == old(st).len(),
                        forall|j: int| 0 <= j < v.len() ==> slots_below(#[trigger] v@[j], old(st).len() as nat),
                        selects_any(v@, 0, line.0 as nat, line.1@, old(st)@) == selects_any(
                            v@,
                            i as int,
                            line.0 as nat,
                            line.1@,
                            st@,
                        ),
                    decreases v.len() - i,
                {
                    let ghost st0 = st@;
                    proof {
                        lemma_matches_len(v@[i as int], line.0 as nat, line.1@, st@);
                        let ghost a = *self;
                        assert(decreases_to!(a => a->AnySet_0));
                        assert(decreases_to!(a->AnySet_0 => a->AnySet_0@));
                        assert(decreases_to!(v@ => v@[i as int]));
                    }
                    if v[i].matches(line, st) {
                        assert(selects_any(v@, i as int, line.0 as nat, line.1@, st0) == (true, st@));
                        return true;
                    }
                    i = i + 1;
                }
                false
            },
            Address::Deferred => false,
        }
    }

    /// The negation of the address, with a double negation taken off.
    pub fn negate(self) -> (r: Address)
        ensures
            r == negated(self),
    {
        match self {
            Address::Negate(b) => *b,
            a => Address::Negate(Box::new(a)),
        }
    }
}

/// What `a` answers for each line of `texts` taken in order, the line at
/// position `t` having index `t + 1`, when the first `j` lines are already
/// behind and the range flags are `st`.
pub open spec fn trace(a: Address, texts: Seq<Seq<char>>, j: nat, st: Seq<bool>) -> Seq<bool>
    decreases texts.len() - j,
{
    if j < texts.len() {
        let (m, st1) = selects(a, j + 1, texts[j as int], st);
        seq![m] + trace(a, texts, j + 1, st1)
    } else {
        Seq::empty()
    }
}

/// Negating an address flips its answer and changes the range flags in the same way.
pub proof fn lemma_negated(a: Address, index: nat, text: Seq<char>, st: Seq<bool>)
    ensures
        selects(negated(a), index, text, st) == (
            !selects(a, index, text, st).0,
            selects(a, index, text, st).1,
        ),
{
}

/// Negating an address twice selects exactly the lines the address selects.
pub proof fn lemma_double_negation(a: Address, index: nat, text: Seq<char>, st: Seq<bool>)
    ensures
        selects(negated(negated(a)), index, text, st) == selects(a, index, text, st),
{
    lemma_negated(a, index, text, st);
    lemma_negated(negated(a), index, text, st);
}

proof fn lemma_range_trace(
    lo: usize,
    hi: usize,
    k: usize,
    texts: Seq<Seq<char>>,
    j: nat,
    st: Seq<bool>,
)
    requires
        1 <= lo <= hi,
        k < st.len(),
        j <= texts.len(),
        st[k as int] == (lo <= j && j < hi),
    ensures
        ({
            let a = Address::Range(Box::new(Address::Location(lo)), Box::new(Address::Location(hi)), k);
            let t = trace(a, texts, j, st);
            t.len() == texts.len() - j && forall|x: int| 0 <= x < t.len() ==> t[x] == (lo <= j + 1 + x
                <= hi)
        }),
    decreases texts.len() - j,
{
    let a = Address::Range(Box::new(Address::Location(lo)), Box::new(Address::Location(hi)), k);
    if j < texts.len() {
        let i = j + 1;
        let (m, st1) = selects(a, i, texts[j as int], st);
        assert(selects(Address::Location(lo), i, texts[j as int], st) == (lo == i, st));
        assert(selects(Address::Location(hi), i, texts[j as int], st) == (hi == i, st));
        assert(m == (lo <= i && i <= hi));
        assert(st1.len() == st.len());
        assert(st1[k as int] == (lo <= i && i < hi));
        lemma_range_trace(lo, hi, k, texts, j + 1, st1);
        let t = trace(a, texts, j, st);
        let rest = trace(a, texts, j + 1, st1);
        assert(t == seq![m] + rest);
        assert forall|x: int| 0 <= x < t.len() implies t[x] == (lo <= j + 1 + x <= hi) by {
            if x > 0 {
                assert(t[x] == rest[x - 1]);
            }
        }
    }
}

/// A range between two line numbers `lo <= hi`, starting outside, selects
/// exactly the lines whose index lies in `lo..=hi`.
pub proof fn lemma_range_selects_interval(
    lo: usize,
    hi: usize,
    k: usize,
    texts: Seq<Seq<char>>,
    st: Seq<bool>,
)
    requires
        1 <= lo <= hi,
        k < st.len(),
        !st[k as int],
    ensures
        trace(
            Address::Range(Box::new(Address::Location(lo)), Box::new(Address::Location(hi)), k),
            texts,
            0,
            st,
        ) == Seq::new(texts.len(), |x: int| lo <= x + 1 <= hi),
{
    lemma_range_trace(lo, hi, k, texts, 0, st);
    let t = trace(
        Address::Range(Box::new(Address::Location(lo)), Box::new(Address::Location(hi)), k),
        texts,
        0,
        st,
    );
    assert(t =~= Seq::new(texts.len(), |x: int| lo <= x + 1 <= hi));
}

} // verus!
