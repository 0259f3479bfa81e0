use vstd::prelude::*;

verus! {

/// Every failure the journal can report, one variant per condition.
#[derive(Clone, Copy, Debug, PartialEq, Eq, Structural)]
pub enum Error {
    /// A note's text is empty.
    EmptyText,
    /// A note's text has more than the allowed number of scalar values.
    TextTooLong,
    /// A note's text contains a line break.
    TextHasLineBreak,
    /// A checkpoint window of zero was requested.
    WindowZero,
    /// No record matches the given identifier or prefix.
    NotFound,
    /// More than one distinct record matches the given prefix.
    Ambiguous,
    /// A checkpoint was requested but no notes exist yet.
    NoMemories,
    /// A checkpoint was requested but nothing new happened since the last one.
    NoNewMemories,
    /// A checkpoint was asked for but none exists yet.
    NoHandoffs,
    /// A checkpoint points at a note that is not in the store.
    HandoffTargetMissing,
    /// A row of a backing file could not be parsed.
    MalformedRow,
}

impl Error {
    /// A short human-readable description of the failure.
    pub fn message(&self) -> &'static str {
        match self {
            Error::EmptyText => "text is empty",
            Error::TextTooLong => "text is too long (max 100 chars); split into multiple crumbs",
            Error::TextHasLineBreak => "newlines are not allowed",
            Error::WindowZero => "window must be >= 1",
            Error::NotFound => "no record matching id prefix",
            Error::Ambiguous => "id prefix is ambiguous",
            Error::NoMemories => "no memories found; add at least one `what` or `why` first",
            Error::NoNewMemories => "no new memories since last handoff",
            Error::NoHandoffs => "no handoffs found",
            Error::HandoffTargetMissing => "handoff target memory not found",
            Error::MalformedRow => "malformed row in store file",
        }
    }
}

} // verus!
