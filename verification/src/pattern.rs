//! Regular expressions, compiled once and applied to many lines.
use crate::text::strs;
use regex::Regex;
use vstd::prelude::*;

verus! {

/// The compiled regular expression of the `regex` crate.
#[verifier::external_type_specification]
#[verifier::external_body]
pub struct ExRegex(regex::Regex);

/// The reason why the `regex` crate did not compile an expression.
#[verifier::external_type_specification]
#[verifier::external_body]
pub struct ExRegexError(regex::Error);

/// The string from which `Regex::new` made `re`; none where it was made in
/// another way, with other options.
pub uninterp spec fn regex_source(re: Regex) -> Option<Seq<char>>;

/// Whether `Regex::new` compiles `source`.
pub uninterp spec fn regex_compiles(source: Seq<char>) -> bool;

/// What `Regex::is_match` answers on `text` for an expression compiled from
/// `source`.
pub uninterp spec fn regex_is_match(source: Seq<char>, text: Seq<char>) -> bool;

/// What `Regex::replace_all` makes of `text` with `replacement` for an
/// expression compiled from `source`.
pub uninterp spec fn regex_replaced(
    source: Seq<char>,
    text: Seq<char>,
    replacement: Seq<char>,
) -> Seq<char>;

/// `Regex::new` compiles an expression, or says that it does not compile;
/// which of the two depends on the expression alone. The value that it makes
/// stands for the expression that it was made from.
pub assume_specification[ regex::Regex::new ](re: &str) -> (r: Result<regex::Regex, regex::Error>)
    ensures
        r is Ok <==> regex_compiles(re@),
        r matches Ok(compiled) ==> regex_source(compiled) == Some(re@),
;

/// `Regex::is_match` tells whether the expression matches anywhere in the
/// haystack, which depends on the two of them alone.
pub assume_specification[ regex::Regex::is_match ](re: &regex::Regex, haystack: &str) -> (r: bool)
    ensures
        regex_source(*re) matches Some(source) ==> r == regex_is_match(source, haystack@),
;

/// Calls `Regex::replace_all`. The result depends on the expression, the
/// haystack and the replacement alone, and it is the haystack itself where
/// the expression does not match.
#[verifier::external_body]
fn regex_replace_all(re: &Regex, haystack: &str, replacement: &str) -> (r: String)
    ensures
        regex_source(*re) matches Some(source) ==> {
            &&& r@ == regex_replaced(source, haystack@, replacement@)
            &&& !regex_is_match(source, haystack@) ==> r@ == haystack@
        },
{
    re.replace_all(haystack, replacement).into_owned()
}

/// Whether the expression `source` matches somewhere in `text`. One that does
/// not compile matches nothing.
pub open spec fn matched(source: Seq<char>, text: Seq<char>) -> bool {
    regex_compiles(source) && regex_is_match(source, text)
}

/// Whether one of the expressions `sources` matches somewhere in `text`.
pub open spec fn any_matched(sources: Seq<Seq<char>>, text: Seq<char>) -> bool {
    exists|i: int| 0 <= i < sources.len() && matched(#[trigger] sources[i], text)
}

/// `text` with every match of the expression `source` replaced by
/// `replacement`. One that does not compile changes nothing.
pub open spec fn replaced(source: Seq<char>, text: Seq<char>, replacement: Seq<char>) -> Seq<char> {
    if regex_compiles(source) {
        regex_replaced(source, text, replacement)
    } else {
        text
    }
}

/// A regular expression. Its view is the string that it was written as.
pub struct Pattern {
    source: String,
    compiled: Option<Regex>,
}

impl View for Pattern {
    type V = Seq<char>;

    closed spec fn view(&self) -> Seq<char> {
        self.source@
    }
}

impl Pattern {
    #[verifier::type_invariant]
    spec fn wf(self) -> bool {
        match self.compiled {
            Some(re) => regex_compiles(self.source@) && regex_source(re) == Some(self.source@),
            None => !regex_compiles(self.source@),
        }
    }

    /// The expression written as `source`.
    pub fn new(source: &str) -> (r: Pattern)
        ensures
            r@ == source@,
    {
        match Regex::new(source) {
            Ok(re) => Pattern { source: source.to_owned(), compiled: Some(re) },
            Err(_) => Pattern { source: source.to_owned(), compiled: None },
        }
    }

    /// Whether the expression matches somewhere in `text`.
    pub fn is_match(&self, text: &str) -> (r: bool)
        ensures
            r == matched(self@, text@),
    {
        proof {
            use_type_invariant(self);
        }
        match &self.compiled {
            Some(re) => re.is_match(text),
            None => false,
        }
    }

    /// `text` with every match of the expression replaced by `replacement`;
    /// `text` itself where there is no match.
    pub fn replace_all(&self, text: &str, replacement: &str) -> (r: String)
        ensures
            r@ == replaced(self@, text@, replacement@),
            !matched(self@, text@) ==> r@ == text@,
    {
        proof {
            use_type_invariant(self);
        }
        match &self.compiled {
            Some(re) => regex_replace_all(re, text, replacement),
            None => text.to_owned(),
        }
    }
}

/// Several regular expressions. Their view is the strings that they were
/// written as.
pub struct PatternSet {
    patterns: Vec<Pattern>,
}

impl View for PatternSet {
    type V = Seq<Seq<char>>;

    closed spec fn view(&self) -> Seq<Seq<char>> {
        Seq::new(self.patterns@.len(), |i: int| self.patterns@[i]@)
    }
}

impl PatternSet {
    /// The expressions written as `sources`.
    pub fn new(sources: &[&str]) -> (r: PatternSet)
        ensures
            r@ == strs(sources@),
    {
        let mut patterns: Vec<Pattern> = Vec::new();
        let n: usize = sources.len();
        for i in 0..n
            invariant
                n == sources@.len(),
                patterns@.len() == i,
                forall|k: int| 0 <= k < i ==> (#[trigger] patterns@[k])@ == sources@[k]@,
        {
            patterns.push(Pattern::new(sources[i]));
        }
        let r = PatternSet { patterns };
        assert(r@ =~= strs(sources@));
        r
    }

    /// Whether one of the expressions matches somewhere in `text`.
    pub fn any_match(&self, text: &str) -> (r: bool)
        ensures
            r == any_matched(self@, text@),
    {
        let n: usize = self.patterns.len();
        for i in 0..n
            invariant
                n == self.patterns@.len(),
                forall|k: int| 0 <= k < i ==> !matched(#[trigger] self@[k], text@),
        {
            if self.patterns[i].is_match(text) {
                assert(matched(self@[i as int], text@));
                return true;
            }
        }
        false
    }
}

} // verus!
