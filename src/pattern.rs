use vstd::prelude::*;

verus! {

#[verifier::external_type_specification]
#[verifier::external_body]
pub struct ExRegex(regex::Regex);

/// Whether `regex::Regex::new` accepts the pattern text.
pub uninterp spec fn regex_accepts(pattern: Seq<char>) -> bool;

/// What `regex::Regex::is_match` answers for a pattern text and a haystack.
pub uninterp spec fn regex_finds(pattern: Seq<char>, haystack: Seq<char>) -> bool;

/// What `regex::Regex::replacen` produces for a pattern text, a haystack, a
/// limit (`0` for all matches) and a replacement template.
pub uninterp spec fn regex_replaced(
    pattern: Seq<char>,
    haystack: Seq<char>,
    limit: nat,
    template: Seq<char>,
) -> Seq<char>;

/// A compiled regular expression together with the text it was compiled from.
///
/// Values are only made by `Pattern::compile` and `Pattern::duplicate`, so the
/// compiled form always belongs to `source`.
#[derive(Debug)]
pub struct Pattern {
    compiled: regex::Regex,
    source: String,
}

impl View for Pattern {
    type V = Seq<char>;

    closed spec fn view(&self) -> Seq<char> {
        self.source@
    }
}

impl Pattern {
    /// Compiles a pattern text, or refuses it.
    pub fn new(pattern: &str) -> (r: Option<Pattern>)
        ensures
            r is Some <==> regex_accepts(pattern@),
            r matches Some(re) ==> re@ == pattern@,
    {
        Pattern::compile(pattern)
    }

    /// Relies on `regex::Regex::new`: compiles the pattern, or refuses it.
    #[verifier::external_body]
    fn compile(pattern: &str) -> (r: Option<Pattern>)
        ensures
            r is Some <==> regex_accepts(pattern@),
            r matches Some(re) ==> re@ == pattern@,
    {
        match regex::Regex::new(pattern) {
            Ok(compiled) => Some(Pattern { compiled, source: pattern.to_string() }),
            Err(_) => None,
        }
    }

    /// Relies on `regex::Regex::clone`: the copy has the same pattern.
    #[verifier::external_body]
    pub(crate) fn duplicate(&self) -> (r: Pattern)
        ensures
            r@ == self@,
    {
        Pattern { compiled: self.compiled.clone(), source: self.source.clone() }
    }

    /// Relies on `regex::Regex::is_match`: whether the haystack holds a match.
    #[verifier::external_body]
    pub(crate) fn is_match(&self, haystack: &str) -> (r: bool)
        ensures
            r == regex_finds(self@, haystack@),
    {
        self.compiled.is_match(haystack)
    }

    /// Relies on `regex::Regex::replacen`: replaces the first `limit` matches
    /// (all of them when `limit` is `0`) by the expanded template.
    #[verifier::external_body]
    pub(crate) fn replacen(&self, haystack: &str, limit: usize, template: &str) -> (r: String)
        ensures
            r@ == regex_replaced(self@, haystack@, limit as nat, template@),
    {
        self.compiled.replacen(haystack, limit, template).into_owned()
    }
}

impl PartialEq for Pattern {
    fn eq(&self, other: &Pattern) -> (r: bool)
        ensures
            r == (self@ == other@),
    {
        self.source == other.source
    }
}

impl vstd::std_specs::cmp::PartialEqSpecImpl for Pattern {
    open spec fn obeys_eq_spec() -> bool {
        true
    }

    open spec fn eq_spec(&self, other: &Pattern) -> bool {
        self@ == other@
    }
}

} // verus!
