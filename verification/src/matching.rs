//! The token pattern: a compiled matcher over Unicode text, the store that
//! hot-swaps it, and the trusted boundary to the `regex` crate that runs it.

use vstd::prelude::*;
use crate::errors::TokenError;

verus! {

/// `regex::Regex` is declared here so that a compiled matcher can stand in a
/// field; Verus treats its values as opaque.
#[verifier::external_type_specification]
#[verifier::external_body]
pub struct ExRegex(regex::Regex);

/// Whether `regex::Regex::new` accepts this pattern text. Compilation succeeds
/// or fails by the pattern text alone.
pub uninterp spec fn pattern_compiles(pattern: Seq<char>) -> bool;

/// The match texts that `regex::Regex::find_iter` yields for this pattern on
/// this haystack, in order.
pub uninterp spec fn matches_of(pattern: Seq<char>, text: Seq<char>) -> Seq<Seq<char>>;

/// What `str::trim` leaves of this text.
pub uninterp spec fn trim_of(text: Seq<char>) -> Seq<char>;

/// Whether `str::trim` treats this character as whitespace (the Unicode
/// `White_Space` property, as `char::is_whitespace` decides it).
pub uninterp spec fn char_is_whitespace(c: char) -> bool;

/// Whether every character of `text` is whitespace; vacuously true of the
/// empty text.
pub open spec fn all_whitespace(text: Seq<char>) -> bool {
    forall|j: int| 0 <= j < text.len() ==> char_is_whitespace(text[j])
}

/// What `str::to_lowercase` makes of this text.
pub uninterp spec fn lower_of(text: Seq<char>) -> Seq<char>;

/// The default pattern: maximal runs of Unicode letters and digits, or else any
/// single character that is neither whitespace nor a letter nor a digit, so
/// punctuation is tokenized one character at a time.
pub open spec fn spec_default_token_regex() -> Seq<char> {
    r"\b[\p{L}\p{N}]+\b|[^\s\p{L}\p{N}]"@
}

/// The default pattern text, stable for callers to rely on.
pub fn default_token_regex() -> (r: &'static str)
    ensures
        r@ == spec_default_token_regex(),
{
    r"\b[\p{L}\p{N}]+\b|[^\s\p{L}\p{N}]"
}

/// A compiled token pattern together with the text it was compiled from. Its
/// view is that text. The fields are private: only `compile` below builds a
/// `Pattern`, which is what ties the matcher to the text.
pub struct Pattern {
    regex: regex::Regex,
    source: String,
}

impl View for Pattern {
    type V = Seq<char>;

    closed spec fn view(&self) -> Seq<char> {
        self.source@
    }
}

impl Pattern {
    /// Relies on `regex::Regex::new`: success depends on the pattern text
    /// alone; on success the returned matcher is the one compiled from
    /// `pattern_text`. The default pattern is valid, so on it the call
    /// succeeds. On failure the compiler's message is handed back.
    #[verifier::external_body]
    fn compile(pattern_text: &str) -> (r: Result<Pattern, String>)
        ensures
            r is Ok <==> pattern_compiles(pattern_text@),
            r is Ok ==> r.unwrap()@ == pattern_text@,
            pattern_text@ == spec_default_token_regex() ==> r is Ok,
    {
        match regex::Regex::new(pattern_text) {
            Ok(regex) => Ok(Pattern { regex, source: pattern_text.to_string() }),
            Err(e) => Err(format!("{}", e)),
        }
    }
}

/// Relies on `regex::Regex::find_iter`: it yields the successive
/// non-overlapping matches of the pattern in the haystack, a function of the
/// two texts alone. Each match is a substring of the haystack, so each of its
/// characters occurs in the haystack; and match starts strictly increase, so
/// there are at most `text@.len() + 1` matches.
#[verifier::external_body]
pub(crate) fn find_tokens(pattern: &Pattern, text: &str) -> (r: Vec<String>)
    ensures
        r.deep_view() == matches_of(pattern@, text@),
        r@.len() <= text@.len() + 1,
        forall|i: int, j: int|
            0 <= i < r@.len() && 0 <= j < r@[i]@.len() ==> text@.contains(#[trigger] r@[i]@[j]),
{
    let mut out: Vec<String> = Vec::new();
    for m in pattern.regex.find_iter(text) {
        out.push(m.as_str().to_string());
    }
    out
}

/// Relies on `str::trim`: it returns the input with leading and trailing
/// whitespace removed, a function of the characters alone and never longer
/// than the input. An input of whitespace alone trims to nothing, and a
/// non-empty result neither starts nor ends with whitespace.
#[verifier::external_body]
pub(crate) fn trim_str<'a>(s: &'a str) -> (r: &'a str)
    ensures
        r@ == trim_of(s@),
        r@.len() <= s@.len(),
        all_whitespace(s@) ==> r@.len() == 0,
        r@.len() > 0 ==> !char_is_whitespace(r@[0]) && !char_is_whitespace(r@[r@.len() - 1]),
{
    s.trim()
}

/// Relies on `str::to_lowercase`: the result depends on the characters alone.
#[verifier::external_body]
pub(crate) fn lowercase(s: &str) -> (r: String)
    ensures
        r@ == lower_of(s@),
{
    s.to_lowercase()
}

/// The current token pattern of a process: installed with the default before
/// first use, and replaced only by a successful `set_token_regex`.
pub struct PatternStore {
    pattern: Pattern,
}

impl View for PatternStore {
    type V = Seq<char>;

    closed spec fn view(&self) -> Seq<char> {
        self.pattern@
    }
}

impl PatternStore {
    /// A store holding the default pattern.
    pub fn new() -> (s: PatternStore)
        ensures
            s@ == spec_default_token_regex(),
    {
        match Pattern::compile(default_token_regex()) {
            Ok(pattern) => PatternStore { pattern },
            Err(_) => vstd::pervasive::unreached(),
        }
    }

    /// Replaces the pattern for all subsequent matching if `pattern_text`
    /// compiles; a failure leaves the store unchanged and reports why.
    pub fn set_token_regex(&mut self, pattern_text: &str) -> (r: Result<(), TokenError>)
        ensures
            r is Ok <==> pattern_compiles(pattern_text@),
            r is Ok ==> final(self)@ == pattern_text@,
            r is Err ==> final(self)@ == old(self)@,
            r is Err ==> r.unwrap_err() is InvalidPattern,
    {
        match Pattern::compile(pattern_text) {
            Ok(pattern) => {
                self.pattern = pattern;
                Ok(())
            },
            Err(reason) => Err(TokenError::InvalidPattern(reason)),
        }
    }

    /// A handle on the current pattern, valid for one matching pass; a later
    /// swap of the store does not touch it.
    pub fn get_pattern_snapshot(&self) -> (r: &Pattern)
        ensures
            r@ == self@,
    {
        &self.pattern
    }
}

} // verus!
