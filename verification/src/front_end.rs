//! What a command-line front end decides once it holds the text of a file:
//! whether to search at all, and what to tell the user when nothing was
//! found.
//!
//! The search itself never writes anything but matching lines. When nothing
//! matched, it is the front end that says so, with the `notice` of its
//! [`Verdict`].

use vstd::prelude::*;
use crate::matcher::{find_matches, matched_lines, search_outcome};
use crate::sink::{Sink, WriteError};

verus! {

/// How a run ended.
#[derive(Debug, Clone, Copy, PartialEq, Eq, Structural)]
pub enum Verdict {
    /// At least one line matched; the matching lines were written.
    Matched,
    /// The text was searched and no line matched.
    NoMatch,
    /// The text is empty and was not searched.
    EmptyInput,
}

impl Verdict {
    /// The line that stands in for the matches when there are none:
    /// `no match`, unless a line matched.
    pub fn notice(&self) -> (text: Option<&'static str>)
        ensures
            *self == Verdict::Matched <==> text is None,
            text matches Some(line) ==> line@ == "no match"@,
    {
        match self {
            Verdict::Matched => None,
            Verdict::NoMatch => Some("no match"),
            Verdict::EmptyInput => Some("no match"),
        }
    }
}

/// The flag that a search returned, read back from the verdict of a run.
pub open spec fn flag_of(outcome: Result<Verdict, WriteError>) -> Result<bool, WriteError> {
    match outcome {
        Ok(verdict) => Ok(verdict == Verdict::Matched),
        Err(e) => Err(e),
    }
}

/// Runs the search for `pattern` in `content` as the front end does: an
/// empty text is not searched, and any other text is searched line by line,
/// its matching lines going to `writer`.
pub fn search<W: Sink>(content: &str, pattern: &str, writer: &mut W) -> (outcome: Result<
    Verdict,
    WriteError,
>)
    ensures
        content@.len() == 0 ==> {
            &&& outcome == Ok::<Verdict, WriteError>(Verdict::EmptyInput)
            &&& final(writer).written() == old(writer).written()
        },
        content@.len() > 0 ==> {
            &&& outcome != Ok::<Verdict, WriteError>(Verdict::EmptyInput)
            &&& search_outcome(
                content@,
                pattern@,
                old(writer).written(),
                final(writer).written(),
                flag_of(outcome),
            )
        },
        W::never_fails() || matched_lines(content@, pattern@).len() == 0 ==> outcome is Ok,
{
    if content.is_empty() {
        return Ok(Verdict::EmptyInput);
    }
    match find_matches(content, pattern, writer) {
        Ok(true) => Ok(Verdict::Matched),
        Ok(false) => Ok(Verdict::NoMatch),
        Err(e) => Err(e),
    }
}

} // verus!
