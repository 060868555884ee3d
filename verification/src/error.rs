//! Error types of the core (embedding and storage), of ingestion and of the
//! parser canary, with the mapping from core errors to ingestion errors and
//! the ingestion error messages.

use vstd::prelude::*;

use crate::text::{decimal, push_decimal, push_str_chars, from_chars};

verus! {

/// Errors produced by the core: embedding and storage.
#[derive(Debug)]
pub enum CoreError {
    EmbeddingFailed(String),
    StoreFailed(String),
    NotImplemented,
    Http(String),
    EmptyInput,
    DimensionMismatch { expected: usize, actual: usize },
}

/// Errors produced by ingestion.
#[derive(Debug)]
pub enum IngestError {
    UnsupportedFileType(String),
    ParseFailed(String),
    IoFailed(String),
    EmbedFailed(String),
    StoreFailed(String),
    NotImplemented,
}

/// Errors produced by the parser canary.
#[derive(Debug)]
pub enum SpikeError {
    PdfFailed(String),
    EpubFailed(String),
}

/// The message an ingestion error carries for a dimension mismatch.
pub open spec fn dimension_mismatch_message(expected: nat, actual: nat) -> Seq<char> {
    "embedding dimension mismatch: expected "@ + decimal(expected) + ", got "@ + decimal(actual)
}

/// How a core error is reported by ingestion: HTTP and embedding failures
/// become embedding failures, empty input becomes a parse failure, storage
/// failures stay storage failures, a dimension mismatch becomes an embedding
/// failure naming both dimensions.
pub open spec fn ingest_error_of(e: CoreError, r: IngestError) -> bool {
    match e {
        CoreError::Http(m) => r matches IngestError::EmbedFailed(x) && x@ == m@,
        CoreError::EmptyInput => r matches IngestError::ParseFailed(x) && x@ == "empty input"@,
        CoreError::StoreFailed(m) => r matches IngestError::StoreFailed(x) && x@ == m@,
        CoreError::EmbeddingFailed(m) => r matches IngestError::EmbedFailed(x) && x@ == m@,
        CoreError::DimensionMismatch { expected, actual } => r matches IngestError::EmbedFailed(x)
            && x@ == dimension_mismatch_message(expected as nat, actual as nat),
        CoreError::NotImplemented => r is NotImplemented,
    }
}

/// The text an ingestion error displays.
pub open spec fn ingest_error_message(e: IngestError) -> Seq<char> {
    match e {
        IngestError::UnsupportedFileType(m) => "unsupported file type: "@ + m@,
        IngestError::ParseFailed(m) => "parse failed: "@ + m@,
        IngestError::IoFailed(m) => "io error: "@ + m@,
        IngestError::EmbedFailed(m) => "embedding failed: "@ + m@,
        IngestError::StoreFailed(m) => "store operation failed: "@ + m@,
        IngestError::NotImplemented => "not yet implemented"@,
    }
}

/// The text a parser-canary error displays.
pub open spec fn spike_error_message(e: SpikeError) -> Seq<char> {
    match e {
        SpikeError::PdfFailed(m) => "pdf extraction failed: "@ + m@,
        SpikeError::EpubFailed(m) => "epub extraction failed: "@ + m@,
    }
}

fn prefixed(prefix: &str, m: &String) -> (r: String)
    ensures
        r@ == prefix@ + m@,
{
    let mut v: Vec<char> = Vec::new();
    push_str_chars(&mut v, prefix);
    push_str_chars(&mut v, m.as_str());
    from_chars(&v)
}

impl SpikeError {
    /// The error's display text.
    pub fn message(&self) -> (r: String)
        ensures
            r@ == spike_error_message(*self),
    {
        match self {
            SpikeError::PdfFailed(m) => prefixed("pdf extraction failed: ", m),
            SpikeError::EpubFailed(m) => prefixed("epub extraction failed: ", m),
        }
    }
}

impl IngestError {
    /// The error's display text.
    pub fn message(&self) -> (r: String)
        ensures
            r@ == ingest_error_message(*self),
    {
        match self {
            IngestError::UnsupportedFileType(m) => prefixed("unsupported file type: ", m),
            IngestError::ParseFailed(m) => prefixed("parse failed: ", m),
            IngestError::IoFailed(m) => prefixed("io error: ", m),
            IngestError::EmbedFailed(m) => prefixed("embedding failed: ", m),
            IngestError::StoreFailed(m) => prefixed("store operation failed: ", m),
            IngestError::NotImplemented => String::from_str("not yet implemented"),
        }
    }

    /// Maps a core error to the ingestion error that reports it.
    pub fn from_core(err: CoreError) -> (r: IngestError)
        ensures
            ingest_error_of(err, r),
    {
        match err {
            CoreError::Http(msg) => IngestError::EmbedFailed(msg),
            CoreError::EmptyInput => IngestError::ParseFailed(String::from_str("empty input")),
            CoreError::StoreFailed(msg) => IngestError::StoreFailed(msg),
            CoreError::EmbeddingFailed(msg) => IngestError::EmbedFailed(msg),
            CoreError::DimensionMismatch { expected, actual } => {
                let mut m: Vec<char> = Vec::new();
                push_str_chars(&mut m, "embedding dimension mismatch: expected ");
                push_decimal(&mut m, expected as u64);
                push_str_chars(&mut m, ", got ");
                push_decimal(&mut m, actual as u64);
                IngestError::EmbedFailed(from_chars(&m))
            },
            CoreError::NotImplemented => IngestError::NotImplemented,
        }
    }
}

impl From<CoreError> for IngestError {
    fn from(err: CoreError) -> (r: IngestError)
        ensures
            ingest_error_of(err, r),
    {
        IngestError::from_core(err)
    }
}

/// The conversion is pinned down up to the identity of the message strings,
/// which only their contents describe; so `from` is specified by
/// `ingest_error_of` rather than by equality with one chosen value.
impl vstd::std_specs::convert::FromSpecImpl<CoreError> for IngestError {
    open spec fn obeys_from_spec() -> bool {
        false
    }

    open spec fn from_spec(v: CoreError) -> IngestError {
        choose|r: IngestError| ingest_error_of(v, r)
    }
}

} // verus!
