use vstd::prelude::*;

verus! {

/// What `unescape::unescape` makes of a text: the text with its backslash
/// escapes decoded, or `None` when one of them is not recognised.
pub uninterp spec fn unescaped(s: Seq<char>) -> Option<Seq<char>>;

/// Relies on `unescape::unescape`: decodes `\n`, `\t`, `\\`, `\u`, `\x`,
/// octal and the other escapes it knows; a text without a backslash comes
/// back unchanged.
#[verifier::external_body]
pub(crate) fn unescape(s: &str) -> (r: Option<String>)
    ensures
        r is Some <==> unescaped(s@) is Some,
        r matches Some(t) ==> unescaped(s@) == Some(t@),
        r is Some || s@.contains('\\'),
        r matches Some(t) ==> (t@ == s@ || s@.contains('\\')),
{
    unescape::unescape(s)
}

} // verus!
