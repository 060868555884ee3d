use athenaeum::discovery::is_supported_extension;
use athenaeum::error::IngestError;
use athenaeum::extract::{EpubSection, ExtractedDocument, ExtractedPage};
use athenaeum::ingest::{
    chunks_from_pdf, chunks_from_sections, document_kind, format_location, passages_from_chunks,
    Chunk, DocumentKind, IngestSummary,
};

#[test]
fn ingest_unsupported_file_type() {
    let result = document_kind(Some("txt"));
    match result {
        Err(IngestError::UnsupportedFileType(m)) => assert_eq!(m, "unsupported file type: txt"),
        other => panic!("unexpected {other:?}"),
    }
}

#[test]
fn ingest_no_extension() {
    match document_kind(None) {
        Err(IngestError::UnsupportedFileType(m)) => assert_eq!(m, "no file extension"),
        other => panic!("unexpected {other:?}"),
    }
}

#[test]
fn document_kind_is_case_insensitive() {
    assert!(matches!(document_kind(Some("PDF")), Ok(DocumentKind::Pdf)));
    assert!(matches!(document_kind(Some("Epub")), Ok(DocumentKind::Epub)));
    assert!(matches!(document_kind(Some("md")), Ok(DocumentKind::Markdown)));
    assert!(matches!(document_kind(Some("MarkDown")), Ok(DocumentKind::Markdown)));
    match document_kind(Some("TXT")) {
        Err(IngestError::UnsupportedFileType(m)) => assert_eq!(m, "unsupported file type: txt"),
        other => panic!("unexpected {other:?}"),
    }
}

#[test]
fn case_insensitive_extension_matching() {
    for ext in ["pdf", "PDF", "Pdf", "EPUB", "md", "markdown", "MARKDOWN"] {
        assert!(is_supported_extension(ext), "{ext}");
    }
    for ext in ["txt", "", "mdx", "pd"] {
        assert!(!is_supported_extension(ext), "{ext}");
    }
}

#[test]
fn format_location_page_only() {
    let chunk = Chunk {
        title: "Test".into(),
        chapter: None,
        section: None,
        page: Some(42),
        text: "content".into(),
    };
    assert_eq!(format_location(&chunk), "page 42");
}

#[test]
fn format_location_chapter_and_section() {
    let chunk = Chunk {
        title: "Test".into(),
        chapter: Some("Chapter 1".into()),
        section: Some("Section A".into()),
        page: None,
        text: "content".into(),
    };
    assert_eq!(format_location(&chunk), "Chapter 1 > Section A");
}

#[test]
fn format_location_chapter_only() {
    let chunk = Chunk {
        title: "Test".into(),
        chapter: Some("Chapter 1".into()),
        section: None,
        page: None,
        text: "content".into(),
    };
    assert_eq!(format_location(&chunk), "Chapter 1");
}

#[test]
fn format_location_section_only() {
    let chunk = Chunk {
        title: "Test".into(),
        chapter: None,
        section: Some("Appendix".into()),
        page: None,
        text: "content".into(),
    };
    assert_eq!(format_location(&chunk), "Appendix");
}

#[test]
fn format_location_none_returns_unknown() {
    let chunk = Chunk {
        title: "Test".into(),
        chapter: None,
        section: None,
        page: None,
        text: "content".into(),
    };
    assert_eq!(format_location(&chunk), "unknown");
}

#[test]
fn format_location_page_wins_and_empty_chapter() {
    let chunk = Chunk {
        title: "T".into(),
        chapter: Some("C".into()),
        section: None,
        page: Some(0),
        text: "x".into(),
    };
    assert_eq!(format_location(&chunk), "page 0");
    let chunk = Chunk {
        title: "T".into(),
        chapter: Some("".into()),
        section: Some("S".into()),
        page: None,
        text: "x".into(),
    };
    assert_eq!(format_location(&chunk), "S");
    let chunk = Chunk {
        title: "T".into(),
        chapter: None,
        section: None,
        page: Some(u32::MAX),
        text: "x".into(),
    };
    assert_eq!(format_location(&chunk), "page 4294967295");
}

#[test]
fn pdf_chunks_cite_pages() {
    let doc = ExtractedDocument {
        title: "book".into(),
        pages: vec![
            ExtractedPage { page_number: 2, text: "Alpha. Beta.".into() },
            ExtractedPage { page_number: 5, text: "Gamma.".into() },
        ],
    };
    let chunks = chunks_from_pdf(&doc);
    assert_eq!(chunks.len(), 2);
    assert_eq!((chunks[0].page, chunks[0].text.as_str()), (Some(2), "Alpha. Beta."));
    assert_eq!((chunks[1].page, chunks[1].text.as_str()), (Some(5), "Gamma."));
    assert!(chunks.iter().all(|c| c.title == "book" && c.chapter.is_none() && c.section.is_none()));
    let passages = passages_from_chunks(&chunks);
    assert_eq!(
        passages,
        vec![
            ("book".to_string(), "page 2".to_string(), "Alpha. Beta.".to_string()),
            ("book".to_string(), "page 5".to_string(), "Gamma.".to_string()),
        ]
    );
}

#[test]
fn section_chunks_cite_chapter_and_section() {
    let sections = vec![
        EpubSection { chapter: Some("Ch".into()), section: Some("S".into()), text: "Body one.".into() },
        EpubSection { chapter: None, section: None, text: "   ".into() },
    ];
    let chunks = chunks_from_sections(&"t".to_string(), &sections);
    assert_eq!(chunks.len(), 1);
    let passages = passages_from_chunks(&chunks);
    assert_eq!(passages[0], ("t".to_string(), "Ch > S".to_string(), "Body one.".to_string()));
}

#[test]
fn summary_counts_one_document() {
    let s = IngestSummary::for_document(7);
    assert_eq!((s.documents, s.chunks), (1, 7));
}
