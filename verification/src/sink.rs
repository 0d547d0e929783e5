//! Where a search writes what it finds: any destination that takes bytes and
//! may refuse them, from a buffer in memory to a pipe that the reader has
//! closed.

use vstd::prelude::*;

verus! {

/// A sink refused a write.
#[derive(Debug, Clone, Copy, PartialEq, Eq)]
pub struct WriteError;

impl WriteError {
    /// The one message that every failed write is reported with.
    pub fn message(&self) -> (text: String)
        ensures
            text@ == "Couldn't write to stdout."@,
    {
        "Couldn't write to stdout.".to_string()
    }
}

/// A destination for bytes that only grows: every write appends.
pub trait Sink {
    /// All bytes that the sink has accepted so far, oldest first. A sink
    /// that is to be verified says what they are; of one that does not,
    /// nothing is known.
    open spec fn written(&self) -> Seq<u8> {
        arbitrary()
    }

    /// Whether sinks of this type accept every write. Unless a sink says so,
    /// it may refuse one.
    open spec fn never_fails() -> bool {
        false
    }

    /// Appends `bytes`. On success the sink has accepted all of them; on
    /// failure it has accepted some first part of them, possibly none or
    /// all, and what it had accepted before is untouched.
    fn write_all(&mut self, bytes: &[u8]) -> (outcome: Result<(), WriteError>)
        ensures
            outcome is Ok ==> final(self).written() == old(self).written() + bytes@,
            outcome is Err ==> old(self).written().is_prefix_of(final(self).written())
                && final(self).written().is_prefix_of(old(self).written() + bytes@),
            Self::never_fails() ==> outcome is Ok,
    ;
}

/// A byte vector is a sink that keeps everything in memory and never fails.
impl Sink for Vec<u8> {
    open spec fn written(&self) -> Seq<u8> {
        self@
    }

    open spec fn never_fails() -> bool {
        true
    }

    fn write_all(&mut self, bytes: &[u8]) -> (outcome: Result<(), WriteError>) {
        self.extend_from_slice(bytes);
        Ok(())
    }
}

} // verus!
