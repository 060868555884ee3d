use athenaeum::error::SpikeError;
use athenaeum::spike::{extract_epub_text, extract_pdf_text, pdf_canary_text};

#[test]
fn canary_pdf_text_skips_pages_that_do_not_read() {
    let pages = vec![Ok("first".to_string()), Err("broken".to_string()), Ok("third page".to_string())];
    assert_eq!(pdf_canary_text(&pages), "first\nthird page");
    assert_eq!(pdf_canary_text(&vec![Err("x".to_string())]), "");
}

#[test]
fn canary_refuses_bytes_that_are_not_a_pdf() {
    assert!(matches!(extract_pdf_text(b"not a pdf"), Err(SpikeError::PdfFailed(_))));
}

#[test]
fn canary_refuses_bytes_that_are_not_an_epub() {
    assert!(matches!(extract_epub_text(b"not an epub"), Err(SpikeError::EpubFailed(_))));
}
