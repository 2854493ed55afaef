//! Sampler for a storage engine's internal performance counters.
//!
//! Counters arrive as one JSON metric dump per target; the decoder turns a
//! dump into typed, keyed observations (histograms are expanded), the key
//! codec folds a metric name and its label set into a single canonical
//! token, and the schema-locked columnar store accumulates one sample per
//! tick and answers pattern selections with a uniformly float-typed
//! projection for ratio analysis.
//!
//! Float values are carried as IEEE 754 bit patterns (`u64`) throughout.
//! The one float computation the library performs — widening an integer
//! during a selection — is a named, trusted operation; the ratio
//! arithmetic itself is left to the binary that consumes the windows
//! this library computes and proves correct.

use vstd::prelude::*;

pub mod asok;
pub mod floatbits;
pub mod metric;
pub mod pattern;
pub mod plot;
pub mod store;
pub mod text;
pub mod watcher;

verus! {

/// The error taxonomy of the crate. Transport and persistence failures
/// happen at the I/O edge and are reported by the binary with these same
/// variants.
#[derive(Clone, Copy, Debug, PartialEq, Eq, Structural)]
pub enum Error {
    /// The admin channel could not be reached or did not answer.
    TransportError,
    /// The dump is not a JSON object with a `metrics` array of single-field
    /// objects, or a label or histogram field has the wrong shape.
    MalformedMetrics,
    /// A metric's `value` entry is neither a number nor a histogram object.
    UnexpectedValueType,
    /// A unified key token does not split into a name plus key/value pairs.
    InvalidKeyEncoding,
    /// A later sample's key set disagrees with the schema locked by the
    /// first sample.
    SchemaDrift,
    /// A selection pattern matched no column.
    NoMatch,
    /// A selection pattern is not a valid regular expression.
    InvalidPattern,
    /// The snapshot could not be written or read back.
    PersistenceError,
}

impl Error {
    /// A human-readable rendering, used by the binary when surfacing errors.
    pub fn message(&self) -> &'static str {
        match self {
            Error::TransportError => "admin channel transport failed",
            Error::MalformedMetrics => "malformed metrics dump",
            Error::UnexpectedValueType => "unexpected metric value type",
            Error::InvalidKeyEncoding => "invalid unified key encoding",
            Error::SchemaDrift => "sample disagrees with the locked schema",
            Error::NoMatch => "pattern matched no column",
            Error::InvalidPattern => "invalid selection pattern",
            Error::PersistenceError => "snapshot could not be written or read",
        }
    }
}

} // verus!
