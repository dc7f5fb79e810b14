//! Finding words in a text with a regular expression.
use vstd::prelude::*;

use crate::text;
use crate::words;

verus! {

/// `regex::Regex`, a compiled regular expression. Nothing is claimed of what
/// is inside.
#[verifier::external_type_specification]
#[verifier::external_body]
pub struct ExRegex(regex::Regex);

/// The span of the leftmost match of a case-insensitive pattern in a text, in
/// bytes.
pub uninterp spec fn first_match(pattern: Seq<char>, text: Seq<char>) -> Option<(usize, usize)>;

/// A compiled pattern that ignores case. Its view is the pattern.
pub struct WordFinder {
    pattern: String,
    re: regex::Regex,
}

impl View for WordFinder {
    type V = Seq<char>;

    closed spec fn view(&self) -> Seq<char> {
        self.pattern@
    }
}

impl WordFinder {
    /// `regex::RegexBuilder`, case-insensitive: what comes back is compiled
    /// from the pattern. When compilation fails is left unsaid: a limit on
    /// sizes that differ from machine to machine has a part in it.
    #[verifier::external_body]
    fn compile(pattern: &str) -> (r: Option<WordFinder>)
        ensures
            r matches Some(f) ==> f@ == pattern@,
    {
        let re = regex::RegexBuilder::new(pattern).case_insensitive(true).build().ok()?;
        Some(WordFinder { pattern: pattern.to_string(), re })
    }

    /// `regex::Regex::find`: the span of the leftmost match, a function of the
    /// compiled pattern and the text. A finder comes from `compile` alone, so
    /// its regular expression is that of its pattern. Which span it is is left
    /// unsaid.
    #[verifier::external_body]
    pub(crate) fn find(&self, text: &str) -> (r: Option<(usize, usize)>)
        ensures
            r == first_match(self@, text@),
    {
        self.re.find(text).map(|m| (m.start(), m.end()))
    }
}

/// A finder for any of the words. `None` without words, and where their
/// pattern cannot be compiled.
pub fn finder_for(words: &Vec<String>) -> (r: Option<WordFinder>)
    ensures
        words@.len() == 0 ==> r is None,
        r matches Some(f) ==> f@ == words::any_word(text::texts(words@)),
{
    if words.len() == 0 {
        return None;
    }
    let pattern = words::any_word_pattern(words);
    WordFinder::compile(pattern.as_str())
}

/// The pattern of an optional finder.
pub open spec fn pattern_of(finder: Option<WordFinder>) -> Option<Seq<char>> {
    match finder {
        Some(f) => Some(f@),
        None => None,
    }
}

/// The span of the first of the words in a text, if there is a finder and it
/// finds one.
pub open spec fn span_in(pattern: Option<Seq<char>>, text: Seq<char>) -> Option<(usize, usize)> {
    match pattern {
        Some(p) => first_match(p, text),
        None => None,
    }
}

} // verus!
