use athenaeum::error::IngestError;
use athenaeum::extract::{
    epub_document, epub_open_error, epub_sections, epub_title, extract_heading, markdown_document,
    parse_markdown_sections, pdf_document, pdf_document_from_bytes, pdf_read_error, container_root_is_relative, epub_root_checked,
    page_texts_or_error, sections_from_events, strip_front_matter, strip_html_tags,
    take_readable_items, take_readable_prefix, title_from_stem, MdEvent, PdfReadError,
};

#[test]
fn strip_front_matter_no_front_matter() {
    let s = "# Title\n\nSome content.\n";
    assert_eq!(strip_front_matter(s), s);
}

#[test]
fn strip_front_matter_well_formed() {
    let s = "---\ntitle: Foo\n---\n# Title\n\nContent.\n";
    assert_eq!(strip_front_matter(s), "# Title\n\nContent.\n");
}

#[test]
fn strip_front_matter_well_formed_crlf() {
    let s = "---\r\ntitle: Foo\r\n---\r\n# Title\r\n";
    // After the closing ---, the next char is \r\n → consume \n
    let result = strip_front_matter(s);
    assert!(result.starts_with("# Title"));
}

#[test]
fn strip_front_matter_unterminated() {
    let s = "---\ntitle: Foo\n# Title\n";
    // No closing fence → the content comes back unchanged.
    assert_eq!(strip_front_matter(s), s);
}

#[test]
fn strip_front_matter_edge_cases() {
    // closing fence on the last line without a newline
    assert_eq!(strip_front_matter("---\na: b\n---"), "");
    // closing fence followed only by carriage returns
    assert_eq!(strip_front_matter("---\na\n---\r"), "\r");
    // a fence line with trailing text is not a fence
    assert_eq!(strip_front_matter("---\na\n----\nb\n"), "---\na\n----\nb\n");
    // empty front matter
    assert_eq!(strip_front_matter("---\n---\nbody"), "body");
    // the opening fence must be the very first line
    assert_eq!(strip_front_matter(" ---\n---\nx"), " ---\n---\nx");
}

#[test]
fn parse_markdown_h1_sets_chapter() {
    let sections = parse_markdown_sections("# Chapter One\n\nSome prose here.\n");
    assert_eq!(sections.len(), 1);
    assert_eq!(sections[0].chapter.as_deref(), Some("Chapter One"));
    assert_eq!(sections[0].section, None);
    assert!(sections[0].text.contains("Some prose here"));
}

#[test]
fn parse_markdown_h2_sets_section() {
    let md = "# Chapter One\n\n## Section A\n\nProse under section.\n";
    let sections = parse_markdown_sections(md);
    // Expect one section under H2 (the H1-only body is empty, flushed as nothing).
    let sec = sections.iter().find(|s| s.section.is_some()).unwrap();
    assert_eq!(sec.chapter.as_deref(), Some("Chapter One"));
    assert_eq!(sec.section.as_deref(), Some("Section A"));
    assert!(sec.text.contains("Prose under section"));
}

#[test]
fn parse_markdown_second_h1_resets_section() {
    let md = "# Chapter One\n\n## Section A\n\nProse.\n\n# Chapter Two\n\nNew chapter.\n";
    let sections = parse_markdown_sections(md);
    // Last section should belong to Chapter Two with no section.
    let last = sections.last().unwrap();
    assert_eq!(last.chapter.as_deref(), Some("Chapter Two"));
    assert_eq!(last.section, None);
}

#[test]
fn parse_markdown_prose_before_any_heading() {
    let md = "No heading here.\n\nJust some text.\n";
    let sections = parse_markdown_sections(md);
    assert_eq!(sections.len(), 1);
    assert_eq!(sections[0].chapter, None);
    assert_eq!(sections[0].section, None);
    assert!(sections[0].text.contains("No heading here"));
}

#[test]
fn parse_markdown_h3_text_folded_into_body() {
    let md = "# Chapter\n\n### Sub note\n\nBody text.\n";
    let sections = parse_markdown_sections(md);
    assert_eq!(sections.len(), 1);
    let text = &sections[0].text;
    assert!(text.contains("Sub note"), "H3 heading should appear in body");
    assert!(text.contains("Body text"));
}

#[test]
fn parse_markdown_inline_emphasis_yields_plain_text() {
    let md = "# Title\n\n**bold** and *italic* and `code`.\n";
    let sections = parse_markdown_sections(md);
    assert_eq!(sections.len(), 1);
    let text = &sections[0].text;
    assert!(text.contains("bold"));
    assert!(text.contains("italic"));
    assert!(text.contains("code"));
    // No asterisks or backticks should remain.
    assert!(!text.contains('*'));
    assert!(!text.contains('`'));
}

#[test]
fn parse_markdown_empty_content_returns_no_sections() {
    let sections = parse_markdown_sections("");
    assert!(sections.is_empty());
}

#[test]
fn parse_markdown_multiline_paragraph_joins_with_spaces() {
    // A soft break (single newline within a paragraph, no heading context)
    // should be normalised to a single space.
    let md = "# Title\n\nLine one\nLine two\n";
    let sections = parse_markdown_sections(md);
    assert_eq!(sections.len(), 1);
    assert!(sections[0].text.contains("Line one Line two"));
}

#[test]
fn parse_markdown_exact_sections() {
    let md = "Intro text.\n\n# One\n\nA  b.\n\n## Sec\n\nC.\n";
    let s = parse_markdown_sections(md);
    assert_eq!(s.len(), 3);
    assert_eq!((s[0].chapter.as_deref(), s[0].section.as_deref(), s[0].text.as_str()), (None, None, "Intro text."));
    assert_eq!((s[1].chapter.as_deref(), s[1].section.as_deref(), s[1].text.as_str()), (Some("One"), None, "A b."));
    assert_eq!((s[2].chapter.as_deref(), s[2].section.as_deref(), s[2].text.as_str()), (Some("One"), Some("Sec"), "C."));
}

#[test]
fn extract_heading_returns_none_for_no_match() {
    let html = "<p>no headings here</p>";
    assert!(extract_heading(html, "h1").is_none());
    assert!(extract_heading(html, "h2").is_none());
}

#[test]
fn extract_heading_finds_h1() {
    let html = "<h1>Chapter One</h1><p>content</p>";
    assert_eq!(extract_heading(html, "h1").unwrap(), "Chapter One");
}

#[test]
fn extract_heading_finds_h2() {
    let html = "<h2>Section A</h2><p>content</p>";
    assert_eq!(extract_heading(html, "h2").unwrap(), "Section A");
}

#[test]
fn extract_heading_first_match_trimmed_and_unclosed() {
    assert_eq!(extract_heading("<h1> A </h1><h1>B</h1>", "h1").unwrap(), "A");
    assert!(extract_heading("<h1>never closed", "h1").is_none());
    assert!(extract_heading("</h1><h1>", "h1").is_none());
    assert_eq!(extract_heading("é<h2>ü</h2>", "h2").unwrap(), "ü");
}

#[test]
fn strip_html_tags_removes_all_tags() {
    let html = "<p>Hello <b>world</b>!</p>";
    assert_eq!(strip_html_tags(html), "Hello world!");
}

#[test]
fn strip_html_tags_handles_empty() {
    assert_eq!(strip_html_tags(""), "");
}

#[test]
fn strip_html_tags_handles_no_tags() {
    assert_eq!(strip_html_tags("plain text"), "plain text");
}

#[test]
fn strip_html_tags_normalizes_whitespace() {
    let html = "<div>  lots   of   spaces  </div>";
    assert_eq!(strip_html_tags(html), "lots of spaces");
}

#[test]
fn strip_html_tags_stray_brackets() {
    assert_eq!(strip_html_tags("a > b < c"), "a b");
    assert_eq!(strip_html_tags("x<y"), "x");
}

#[test]
fn pdf_document_numbers_pages_and_skips_blank_ones() {
    let texts = vec!["first".to_string(), "  \n".to_string(), "third".to_string()];
    let doc = pdf_document("book".to_string(), &texts).unwrap();
    assert_eq!(doc.title, "book");
    let pages: Vec<(u32, &str)> = doc.pages.iter().map(|p| (p.page_number, p.text.as_str())).collect();
    assert_eq!(pages, vec![(1, "first"), (3, "third")]);
}

#[test]
fn pdf_document_without_text_is_refused() {
    let texts = vec![" ".to_string()];
    match pdf_document("book".to_string(), &texts) {
        Err(IngestError::ParseFailed(m)) => assert_eq!(m, "empty document"),
        other => panic!("unexpected {other:?}"),
    }
}

#[test]
fn epub_sections_follow_headings() {
    let items = vec![
        "<h1>Part I</h1><p>Intro</p>".to_string(),
        "<h2>Origins</h2><p>Text  here</p>".to_string(),
        "<p>  </p>".to_string(),
        "<h1>Part II</h1><p>More</p>".to_string(),
    ];
    let s = epub_sections(&items).unwrap();
    assert_eq!(s.len(), 3);
    assert_eq!((s[0].chapter.as_deref(), s[0].section.as_deref(), s[0].text.as_str()), (Some("Part I"), None, "Part IIntro"));
    assert_eq!((s[1].chapter.as_deref(), s[1].section.as_deref(), s[1].text.as_str()), (Some("Part I"), Some("Origins"), "OriginsText here"));
    assert_eq!((s[2].chapter.as_deref(), s[2].section.as_deref(), s[2].text.as_str()), (Some("Part II"), None, "Part IIMore"));
}

#[test]
fn epub_without_text_is_refused() {
    assert!(matches!(epub_sections(&vec!["<br/>".to_string()]), Err(IngestError::ParseFailed(_))));
    assert!(matches!(epub_sections(&vec![]), Err(IngestError::ParseFailed(_))));
}

#[test]
fn titles_fall_back_to_stem_then_unknown() {
    assert_eq!(epub_title(Some("Meta".to_string()), Some("stem")), "Meta");
    assert_eq!(epub_title(None, Some("stem")), "stem");
    assert_eq!(epub_title(None, None), "unknown");
    assert_eq!(title_from_stem(Some("sample")), "sample");
    assert_eq!(title_from_stem(None), "unknown");
}

#[test]
fn markdown_document_strips_front_matter() {
    let raw = "---\ntitle: Ignored\n---\n# Chapter One\n\nSome prose.\n\n## Section A\n\nMore prose.\n";
    let (title, sections) = markdown_document(Some("sample"), raw).expect("markdown should parse");
    assert_eq!(title, "sample");
    assert!(sections.iter().any(|s| s.chapter.as_deref() == Some("Chapter One")));
    assert!(sections.iter().any(|s| s.section.as_deref() == Some("Section A")));
    assert!(sections.iter().all(|s| !s.text.contains("Ignored")));
}

#[test]
fn markdown_document_empty_errors() {
    let result = markdown_document(Some("empty"), "");
    assert!(matches!(result, Err(IngestError::ParseFailed(_))));
}

#[test]
fn strip_html_tags_is_idempotent() {
    for html in ["<div>  lots   of   spaces  </div>", "a < b > c", "<p>x</p>\n<p> y </p>", "plain text", ""] {
        let once = strip_html_tags(html);
        assert_eq!(strip_html_tags(&once), once);
    }
    assert_eq!(strip_html_tags("<div>  lots   of   spaces  </div>"), "lots of spaces");
}

#[test]
fn bytes_that_are_not_an_epub_pass_the_root_check() {
    // the archive does not open, so the reader reports an error of its own
    assert!(epub_root_checked(b"not an epub"));
    assert!(epub_root_checked(&[]));
}

#[test]
fn container_root_must_be_a_relative_path() {
    let ok = |c: &str| container_root_is_relative(&c.as_bytes().to_vec());
    assert!(ok(r#"<rootfile full-path="OEBPS/content.opf"/>"#));
    assert!(ok(r#"<rootfile full-path = 'content.opf'/>"#));
    assert!(ok("<container/>"));
    assert!(!ok(r#"<rootfile full-path=""/>"#));
    assert!(!ok(r#"<rootfile full-path="/"/>"#));
    assert!(!ok(r#"<rootfile full-path="/OEBPS/content.opf"/>"#));
    assert!(!ok(r#"<rootfile full-path="&#47;"/>"#));
    assert!(!ok("<rootfile full-path\n=\t' /'/>"));
    assert!(!ok("<rootfile full-path=\"a\"/>\0"));
}

#[test]
fn epub_document_reports_unreadable_bytes() {
    match epub_document(Some("book"), b"not an epub") {
        Err(IngestError::ParseFailed(m)) => assert!(m.starts_with("failed to open epub: "), "{m}"),
        other => panic!("unexpected {other:?}"),
    }
}

#[test]
fn epub_open_error_carries_the_cause() {
    match epub_open_error("bad zip") {
        IngestError::ParseFailed(m) => assert_eq!(m, "failed to open epub: bad zip"),
        other => panic!("unexpected {other:?}"),
    }
}

#[test]
fn pdf_read_errors_name_the_failing_step() {
    match pdf_read_error(PdfReadError::Load("no library".to_string())) {
        IngestError::ParseFailed(m) => assert_eq!(m, "failed to load pdf: no library"),
        other => panic!("unexpected {other:?}"),
    }
    match pdf_read_error(PdfReadError::PageText("page 2".to_string())) {
        IngestError::ParseFailed(m) => assert_eq!(m, "failed to extract text: page 2"),
        other => panic!("unexpected {other:?}"),
    }
}

#[test]
fn pdf_document_from_bytes_refuses_bytes_that_are_not_a_pdf() {
    match pdf_document_from_bytes(Some("book"), b"not a pdf") {
        Err(IngestError::ParseFailed(m)) => assert!(m.starts_with("failed to load pdf: "), "{m}"),
        other => panic!("unexpected {other:?}"),
    }
}

#[test]
fn sections_carry_the_headings_in_force() {
    let t = |s: &str| MdEvent::Text(s.to_string());
    let events = vec![
        t("preface"),
        MdEvent::HeadingStart(1),
        t(" Part "),
        MdEvent::Code("I".to_string()),
        MdEvent::HeadingEnd,
        t("alpha"),
        MdEvent::HeadingStart(2),
        t("Origins"),
        MdEvent::HeadingEnd,
        t("beta"),
        MdEvent::SoftBreak,
        t("gamma"),
        MdEvent::HeadingStart(3),
        t("Deep"),
        MdEvent::HeadingEnd,
        t("delta"),
        MdEvent::HeadingStart(1),
        t("Part II"),
        MdEvent::HeadingEnd,
        t("epsilon"),
    ];
    let s = sections_from_events(&events);
    let got: Vec<(Option<&str>, Option<&str>, &str)> =
        s.iter().map(|x| (x.chapter.as_deref(), x.section.as_deref(), x.text.as_str())).collect();
    assert_eq!(
        got,
        vec![
            (None, None, "preface"),
            (Some("Part I"), None, "alpha"),
            (Some("Part I"), Some("Origins"), "beta gamma"),
            (Some("Part I"), Some("Origins"), "Deepdelta"),
            (Some("Part II"), None, "epsilon"),
        ]
    );
}

#[test]
fn page_texts_or_error_reports_the_first_failing_page() {
    let ok = vec![Ok("a".to_string()), Ok("b".to_string())];
    assert_eq!(page_texts_or_error(&ok), Ok(vec!["a".to_string(), "b".to_string()]));
    let bad = vec![Ok("a".to_string()), Err("first".to_string()), Err("second".to_string())];
    assert_eq!(page_texts_or_error(&bad), Err("first".to_string()));
    assert_eq!(page_texts_or_error(&vec![]), Ok(vec![]));
}

#[test]
fn spine_items_up_to_the_first_unreadable_one() {
    let items = vec![Some("<p>a</p>".to_string()), None, Some("<p>c</p>".to_string())];
    assert_eq!(take_readable_prefix(&items), vec!["<p>a</p>".to_string()]);
    assert_eq!(take_readable_items(&items), vec!["<p>a</p>".to_string(), "<p>c</p>".to_string()]);
    assert!(take_readable_prefix(&vec![None, Some("x".to_string())]).is_empty());
}
