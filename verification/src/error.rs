//! What can go wrong, and where in the user interface it is shown.

use vstd::prelude::*;
use vstd::string::StringExecFns;
use crate::debug_id::DebugId;

verus! {

/// The kinds of error.
#[derive(Debug, Clone)]
pub enum ErrorKind {
    /// The audio file could not be decoded.
    AudioDecoder,
    /// Reading or writing failed; the text says how.
    IO(String),
    /// A number that the user typed could not be read.
    Parsing,
    /// The user asked for a silence of negative length.
    NegativeDuration,
    /// The silence analysis did not run to its end.
    Analysis,
}

impl ErrorKind {
    /// The place where an error of this kind is shown.
    pub open spec fn place(self) -> DebugId {
        match self {
            ErrorKind::AudioDecoder => DebugId::ErrorAudioDecoder,
            ErrorKind::IO(_) => DebugId::ErrorIO,
            ErrorKind::Parsing => DebugId::ErrorParseFloat,
            ErrorKind::NegativeDuration => DebugId::ErrorNegativeDuration,
            ErrorKind::Analysis => DebugId::ErrorAnalysis,
        }
    }

    /// What the user is told about an error of this kind.
    pub open spec fn message_text(self) -> Seq<char> {
        match self {
            ErrorKind::AudioDecoder => "failed to decode audio file"@,
            ErrorKind::IO(text) => text@,
            ErrorKind::Parsing => "failed to parse float; please check duration and threshold"@,
            ErrorKind::NegativeDuration => "a negative duration value is not allowed"@,
            ErrorKind::Analysis => "the silence analysis failed"@,
        }
    }
}

/// An error of some kind, with the place at which it is shown.
#[derive(Debug, Clone)]
pub struct Error {
    kind: ErrorKind,
    id: DebugId,
}

impl View for Error {
    type V = (ErrorKind, DebugId);

    closed spec fn view(&self) -> (ErrorKind, DebugId) {
        (self.kind, self.id)
    }
}

impl Error {
    pub fn new(kind: ErrorKind, id: DebugId) -> (error: Self)
        ensures
            error@ == (kind, id),
    {
        Error { kind, id }
    }

    /// An error of the given kind, shown at the place that belongs to the
    /// kind.
    pub fn from_kind(kind: ErrorKind) -> (error: Self)
        ensures
            error@ == (kind, kind.place()),
    {
        let id = match &kind {
            ErrorKind::AudioDecoder => DebugId::ErrorAudioDecoder,
            ErrorKind::IO(_) => DebugId::ErrorIO,
            ErrorKind::Parsing => DebugId::ErrorParseFloat,
            ErrorKind::NegativeDuration => DebugId::ErrorNegativeDuration,
            ErrorKind::Analysis => DebugId::ErrorAnalysis,
        };
        Error { kind, id }
    }

    pub fn id(&self) -> (id: DebugId)
        ensures
            id == self@.1,
    {
        self.id
    }

    pub fn kind(&self) -> (kind: &ErrorKind)
        ensures
            *kind == self@.0,
    {
        &self.kind
    }

    /// What the user is told about the error.
    pub fn message(&self) -> (text: String)
        ensures
            text@ == self@.0.message_text(),
    {
        match &self.kind {
            ErrorKind::AudioDecoder => String::from_str("failed to decode audio file"),
            ErrorKind::IO(text) => text.clone(),
            ErrorKind::Parsing => String::from_str(
                "failed to parse float; please check duration and threshold",
            ),
            ErrorKind::NegativeDuration => String::from_str(
                "a negative duration value is not allowed",
            ),
            ErrorKind::Analysis => String::from_str("the silence analysis failed"),
        }
    }
}

} // verus!
