//! Search patterns: a raw pattern string, compiled once into a regex. A
//! non-regex pattern is matched exactly, by escaping it and anchoring it on
//! both sides.
use vstd::prelude::*;

verus! {

#[verifier::external_type_specification]
#[verifier::external_body]
pub struct ExRegex(regex::Regex);

#[verifier::external_type_specification]
#[verifier::external_body]
pub struct ExRegexError(regex::Error);

/// The pattern string a compiled regex was built from, as
/// `regex::Regex::as_str` reports it.
pub uninterp spec fn regex_source(re: regex::Regex) -> Seq<char>;

/// Whether `regex::Regex::new` accepts this pattern. Compilation is a
/// function of the pattern text alone.
pub uninterp spec fn regex_valid(pat: Seq<char>) -> bool;

/// Whether the regex compiled from `pat` matches anywhere in `text`. The
/// outcome depends on the two texts alone.
pub uninterp spec fn regex_match(pat: Seq<char>, text: Seq<char>) -> bool;

/// What `regex::escape` returns for `s`: the same text with every regex
/// metacharacter escaped.
pub uninterp spec fn regex_escaped(s: Seq<char>) -> Seq<char>;

/// Relies on `regex::Regex::new`: compiles the pattern, succeeding exactly
/// when the pattern is valid; the compiled value keeps its pattern text,
/// which `Regex::as_str` returns.
#[verifier::external_body]
fn compile_regex(pattern: &str) -> (r: Result<regex::Regex, regex::Error>)
    ensures
        r is Ok <==> regex_valid(pattern@),
        r matches Ok(re) ==> regex_source(re) == pattern@,
{
    regex::Regex::new(pattern)
}

/// Relies on `regex::Regex::is_match`: true exactly when the compiled
/// pattern matches somewhere in `text`.
#[verifier::external_body]
pub(crate) fn regex_is_match(re: &regex::Regex, text: &str) -> (r: bool)
    ensures
        r == regex_match(regex_source(*re), text@),
{
    re.is_match(text)
}

/// Relies on `regex::escape`: returns the input with every regex
/// metacharacter escaped, a function of the input text alone.
#[verifier::external_body]
fn escape_regex(s: &str) -> (r: String)
    ensures
        r@ == regex_escaped(s@),
{
    regex::escape(s)
}

/// The pattern text actually handed to the regex engine: the raw pattern
/// for a regex search, the escaped pattern anchored on both ends for an
/// exact-match search.
pub open spec fn effective_pattern(pattern: Seq<char>, is_regex: bool) -> Seq<char> {
    if is_regex {
        pattern
    } else {
        "^"@ + regex_escaped(pattern) + "$"@
    }
}

/// A compiled search pattern. `is_manual` tells a user-entered pattern from
/// the ephemeral pattern installed automatically when a frame is selected.
pub struct SearchPattern {
    pub pattern: String,
    pub is_regex: bool,
    pub re: regex::Regex,
    pub is_manual: bool,
}

impl SearchPattern {
    /// The compiled regex was built from this pattern.
    pub open spec fn wf(self) -> bool {
        regex_source(self.re) == effective_pattern(self.pattern@, self.is_regex)
    }

    /// Whether this pattern matches `text`.
    pub open spec fn matches(self, text: Seq<char>) -> bool {
        regex_match(effective_pattern(self.pattern@, self.is_regex), text)
    }

    /// Compiles a pattern; fails exactly when the effective pattern is not
    /// a valid regex.
    pub fn new(pattern: &str, is_regex: bool, is_manual: bool) -> (r: Result<
        SearchPattern,
        regex::Error,
    >)
        ensures
            r is Ok <==> regex_valid(effective_pattern(pattern@, is_regex)),
            r matches Ok(p) ==> {
                &&& p.wf()
                &&& p.pattern@ == pattern@
                &&& p.is_regex == is_regex
                &&& p.is_manual == is_manual
            },
    {
        let effective = if is_regex {
            String::from_str(pattern)
        } else {
            let escaped = escape_regex(pattern);
            let anchored = String::from_str("^").concat(escaped.as_str());
            anchored.concat("$")
        };
        proof {
            assert(effective@ == effective_pattern(pattern@, is_regex));
        }
        match compile_regex(effective.as_str()) {
            Ok(re) => Ok(
                SearchPattern {
                    pattern: String::from_str(pattern),
                    is_regex,
                    re,
                    is_manual,
                },
            ),
            Err(e) => Err(e),
        }
    }

    /// Whether this pattern matches the given text, at run time.
    pub fn is_match(&self, text: &str) -> (r: bool)
        requires
            self.wf(),
        ensures
            r == self.matches(text@),
    {
        regex_is_match(&self.re, text)
    }
}

} // verus!
