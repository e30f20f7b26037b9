//! The failure model: a parse failure carries an offset into the input the
//! failing parser was given, a tag naming the primitive or combinator that
//! raised it, and a human-readable reason.
//!
//! Offsets compose: when a combinator has already consumed a prefix of `k`
//! units before delegating to a sub-parser, a failure of the sub-parser at
//! offset `o` is re-raised at offset `k + o` (see [`ParserError::from_error`]),
//! so the outermost caller always receives an offset relative to the input it
//! supplied.

use vstd::prelude::*;

verus! {

/// Mathematical image of an [`ErrorSource`]: the embedded literal is read as
/// its character sequence.
pub enum SourceModel {
    Many,
    Sequence(Seq<char>),
    TakeWhile,
    DropUntil,
}

/// Mathematical image of a [`ParserError`].
pub struct ErrorModel {
    pub index: int,
    pub source: SourceModel,
    pub reason: Seq<char>,
}

/// Which primitive or combinator raised a failure.
///
/// `Sequence` is a literal mismatch: it carries the literal that failed to
/// match, captured eagerly as an owned string so the error does not borrow
/// from the input. `TakeWhile` means a run matcher found no qualifying unit,
/// and `DropUntil` that a lookahead scanned to the end of input without a
/// match. `Many` is kept for completeness: the repetition itself never
/// fails.
#[derive(Debug, PartialEq)]
pub enum ErrorSource {
    Many,
    Sequence(String),
    TakeWhile,
    DropUntil,
}

/// A parse failure: offset (in input units, relative to the input handed to
/// the failing parser), source tag, and reason text.
#[derive(Debug, PartialEq)]
pub struct ParserError {
    pub index: usize,
    pub source: ErrorSource,
    pub reason: String,
}

impl DeepView for ErrorSource {
    type V = SourceModel;

    open spec fn deep_view(&self) -> SourceModel {
        match self {
            ErrorSource::Many => SourceModel::Many,
            ErrorSource::Sequence(s) => SourceModel::Sequence(s@),
            ErrorSource::TakeWhile => SourceModel::TakeWhile,
            ErrorSource::DropUntil => SourceModel::DropUntil,
        }
    }
}

impl DeepView for ParserError {
    type V = ErrorModel;

    open spec fn deep_view(&self) -> ErrorModel {
        ErrorModel {
            index: self.index as int,
            source: self.source.deep_view(),
            reason: self.reason@,
        }
    }
}

impl ParserError {
    /// Builds a failure from its parts, copying the reason text.
    pub fn new(index: usize, source: ErrorSource, reason: &str) -> (e: Self)
        ensures
            e.deep_view() == (ErrorModel {
                index: index as int,
                source: source.deep_view(),
                reason: reason@,
            }),
    {
        ParserError { index, source, reason: reason.to_owned() }
    }

    /// Re-bases a failure raised by a sub-parser: the enclosing combinator had
    /// already consumed `index` units, so the failure moves that much further
    /// into the enclosing input. Source and reason are kept unchanged.
    pub fn from_error(error: ParserError, index: usize) -> (e: Self)
        requires
            error.index + index <= usize::MAX,
        ensures
            e.deep_view() == (ErrorModel {
                index: error.index + index,
                source: error.source.deep_view(),
                reason: error.reason@,
            }),
    {
        ParserError {
            index: error.index + index,
            source: error.source,
            reason: error.reason,
        }
    }
}

} // verus!
