//! The dialog that adds a filter: a video is hidden when its title matches
//! the title pattern and its channel the channel pattern, an empty pattern
//! standing for no condition.
use vstd::prelude::*;
use crate::text::same_text;

verus! {

#[verifier::external_type_specification]
#[verifier::external_body]
pub struct ExRegex(regex::Regex);

/// Whether the `regex` crate compiles `pattern` into a regular expression
/// (it refuses syntax errors and expressions that would grow too large).
pub uninterp spec fn regex_compiles(pattern: Seq<char>) -> bool;

/// A compiled regular expression together with the pattern it was compiled
/// from. Only `compile` makes one, so the two always belong together.
pub struct CompiledPattern {
    regex: regex::Regex,
    text: String,
}

impl CompiledPattern {
    /// The pattern this expression was compiled from.
    pub closed spec fn text(&self) -> Seq<char> {
        self.text@
    }

    /// The pattern this expression was compiled from.
    pub fn as_str(&self) -> (s: &str)
        ensures
            s@ == self.text(),
    {
        self.text.as_str()
    }

    /// The compiled expression.
    pub fn regex(&self) -> &regex::Regex {
        &self.regex
    }

    /// The compiled expression, giving up the pattern beside it.
    pub fn into_regex(self) -> regex::Regex {
        self.regex
    }
}

/// Calls `regex::Regex::new`; the contract names whether it succeeds
/// (`regex_compiles` of the pattern) and says that the expression is kept
/// beside its pattern, which is what `Regex::as_str` returns: the original
/// string of the expression.
#[verifier::external_body]
fn compile(pattern: &str) -> (re: Option<CompiledPattern>)
    ensures
        re is Some == regex_compiles(pattern@),
        re matches Some(c) ==> c.text() == pattern@,
{
    match regex::Regex::new(pattern) {
        Ok(regex) => Some(CompiledPattern { text: regex.as_str().to_string(), regex }),
        Err(_) => None,
    }
}

/// The patterns of a filter to add, each compiled, `None` for no condition.
pub struct NewFilter {
    pub title: Option<CompiledPattern>,
    pub channel: Option<CompiledPattern>,
}

/// The compiled pattern, or `None` when the pattern is empty; `Err` when it
/// does not compile.
pub fn optional_pattern(pattern: &str) -> (res: Result<Option<CompiledPattern>, ()>)
    ensures
        pattern@.len() == 0 ==> res matches Ok(None),
        pattern@.len() > 0 ==> (res is Ok == regex_compiles(pattern@)),
        pattern@.len() > 0 ==> (res matches Ok(r) ==> r is Some),
        res matches Ok(Some(c)) ==> c.text() == pattern@,
{
    if pattern.unicode_len() == 0 {
        Ok(None)
    } else {
        match compile(pattern) {
            Some(re) => Ok(Some(re)),
            None => Err(()),
        }
    }
}

/// What the dialog that adds a filter does on `response` with the title and
/// channel patterns typed in: nothing unless the response is `add` and each
/// non-empty pattern compiles; else the filter to add.
pub fn handle_add_filter(response: Option<&str>, title: &str, channel: &str) -> (res: Option<
    NewFilter,
>)
    ensures
        res is Some == ((response matches Some(r) && r@ == "add"@) && (title@.len() > 0
            ==> regex_compiles(title@)) && (channel@.len() > 0 ==> regex_compiles(channel@))),
        res matches Some(f) ==> (f.title is Some == (title@.len() > 0)) && (f.channel is Some == (
        channel@.len() > 0)),
        res matches Some(f) ==> (f.title matches Some(c) ==> c.text() == title@),
        res matches Some(f) ==> (f.channel matches Some(c) ==> c.text() == channel@),
{
    let is_add = match response {
        Some(r) => same_text(r, "add"),
        None => false,
    };
    if !is_add {
        return None;
    }
    let title_re = optional_pattern(title);
    let channel_re = optional_pattern(channel);
    match (title_re, channel_re) {
        (Ok(t), Ok(c)) => Some(NewFilter { title: t, channel: c }),
        _ => None,
    }
}

} // verus!
