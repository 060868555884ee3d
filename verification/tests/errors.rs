use athenaeum::error::{CoreError, IngestError, SpikeError};

#[test]
fn from_core_error_maps_all_variants() {
    // CoreError::Http → IngestError::EmbedFailed
    let err: IngestError = CoreError::Http("timeout".into()).into();
    assert!(matches!(err, IngestError::EmbedFailed(_)));

    // CoreError::EmptyInput → IngestError::ParseFailed
    let err: IngestError = CoreError::EmptyInput.into();
    assert!(matches!(err, IngestError::ParseFailed(_)));

    // CoreError::StoreFailed → IngestError::StoreFailed
    let err: IngestError = CoreError::StoreFailed("disk full".into()).into();
    assert!(matches!(err, IngestError::StoreFailed(_)));

    // CoreError::EmbeddingFailed → IngestError::EmbedFailed
    let err: IngestError = CoreError::EmbeddingFailed("model error".into()).into();
    assert!(matches!(err, IngestError::EmbedFailed(_)));

    // CoreError::DimensionMismatch → IngestError::EmbedFailed with formatted message
    let err: IngestError = CoreError::DimensionMismatch {
        expected: 768,
        actual: 4,
    }
    .into();
    assert!(matches!(err, IngestError::EmbedFailed(_)));
    assert!(err.message().contains("768"));

    // CoreError::NotImplemented → IngestError::NotImplemented
    let err: IngestError = CoreError::NotImplemented.into();
    assert!(matches!(err, IngestError::NotImplemented));
}

#[test]
fn converted_messages_are_exact() {
    let err: IngestError = CoreError::DimensionMismatch {
        expected: 768,
        actual: 4,
    }
    .into();
    assert_eq!(
        err.message(),
        "embedding failed: embedding dimension mismatch: expected 768, got 4"
    );
    let err: IngestError = CoreError::EmptyInput.into();
    assert_eq!(err.message(), "parse failed: empty input");
    let err: IngestError = CoreError::Http("timeout".into()).into();
    assert_eq!(err.message(), "embedding failed: timeout");
    let err: IngestError = CoreError::DimensionMismatch { expected: 0, actual: 1_000_000 }.into();
    assert_eq!(
        err.message(),
        "embedding failed: embedding dimension mismatch: expected 0, got 1000000"
    );
}

#[test]
fn ingest_error_messages() {
    assert_eq!(
        IngestError::UnsupportedFileType("x".into()).message(),
        "unsupported file type: x"
    );
    assert_eq!(IngestError::IoFailed("gone".into()).message(), "io error: gone");
    assert_eq!(
        IngestError::StoreFailed("full".into()).message(),
        "store operation failed: full"
    );
    assert_eq!(IngestError::NotImplemented.message(), "not yet implemented");
    assert_eq!(
        SpikeError::PdfFailed("bad".into()).message(),
        "pdf extraction failed: bad"
    );
    assert_eq!(
        SpikeError::EpubFailed("bad".into()).message(),
        "epub extraction failed: bad"
    );
}
