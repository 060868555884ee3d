use athenaeum::error::{IngestError, SpikeError};
use athenaeum::extract::{epub_document, epub_root_checked, strip_html_tags};
use athenaeum::spike::extract_epub_text;

const CHAPTER_ONE: &str = "<html><body><h1>Part One</h1><p>Hello   world.</p></body></html>";
const CHAPTER_TWO: &str = "<html><body><h2>Origins</h2><p>More text.</p></body></html>";

fn crc32(data: &[u8]) -> u32 {
    let mut crc: u32 = 0xffff_ffff;
    for &b in data {
        crc ^= b as u32;
        for _ in 0..8 {
            let mask = (!(crc & 1)).wrapping_add(1);
            crc = (crc >> 1) ^ (0xedb8_8320 & mask);
        }
    }
    !crc
}

fn push16(out: &mut Vec<u8>, v: u16) {
    out.extend_from_slice(&v.to_le_bytes());
}

fn push32(out: &mut Vec<u8>, v: u32) {
    out.extend_from_slice(&v.to_le_bytes());
}

/// A zip archive holding the given files uncompressed.
fn stored_zip(files: &[(&str, &str)]) -> Vec<u8> {
    let mut out = Vec::new();
    let mut central = Vec::new();
    for (name, data) in files {
        let offset = out.len() as u32;
        let crc = crc32(data.as_bytes());
        let size = data.len() as u32;
        push32(&mut out, 0x0403_4b50);
        for v in [20u16, 0, 0, 0, 0x21] {
            push16(&mut out, v);
        }
        push32(&mut out, crc);
        push32(&mut out, size);
        push32(&mut out, size);
        push16(&mut out, name.len() as u16);
        push16(&mut out, 0);
        out.extend_from_slice(name.as_bytes());
        out.extend_from_slice(data.as_bytes());

        push32(&mut central, 0x0201_4b50);
        for v in [20u16, 20, 0, 0, 0, 0x21] {
            push16(&mut central, v);
        }
        push32(&mut central, crc);
        push32(&mut central, size);
        push32(&mut central, size);
        push16(&mut central, name.len() as u16);
        for v in [0u16, 0, 0, 0] {
            push16(&mut central, v);
        }
        push32(&mut central, 0);
        push32(&mut central, offset);
        central.extend_from_slice(name.as_bytes());
    }
    let central_offset = out.len() as u32;
    let central_size = central.len() as u32;
    out.extend_from_slice(&central);
    push32(&mut out, 0x0605_4b50);
    push16(&mut out, 0);
    push16(&mut out, 0);
    push16(&mut out, files.len() as u16);
    push16(&mut out, files.len() as u16);
    push32(&mut out, central_size);
    push32(&mut out, central_offset);
    push16(&mut out, 0);
    out
}

fn sample_epub() -> Vec<u8> {
    epub_with_root("OEBPS/content.opf")
}

fn epub_with_root(root: &str) -> Vec<u8> {
    let container = format!(
        r#"<?xml version="1.0"?>
<container version="1.0" xmlns="urn:oasis:names:tc:opendocument:xmlns:container">
  <rootfiles><rootfile full-path="{root}" media-type="application/oebps-package+xml"/></rootfiles>
</container>"#
    );
    let opf = r#"<?xml version="1.0" encoding="UTF-8"?>
<package xmlns="http://www.idpf.org/2007/opf" version="2.0" unique-identifier="id">
  <metadata xmlns:dc="http://purl.org/dc/elements/1.1/">
    <dc:title>Sample Book</dc:title><dc:identifier id="id">sample-1</dc:identifier><dc:language>en</dc:language>
  </metadata>
  <manifest>
    <item id="c1" href="c1.xhtml" media-type="application/xhtml+xml"/>
    <item id="c2" href="c2.xhtml" media-type="application/xhtml+xml"/>
  </manifest>
  <spine><itemref idref="c1"/><itemref idref="c2"/></spine>
</package>"#;
    stored_zip(&[
        ("mimetype", "application/epub+zip"),
        ("META-INF/container.xml", container.as_str()),
        ("OEBPS/content.opf", opf),
        ("OEBPS/c1.xhtml", CHAPTER_ONE),
        ("OEBPS/c2.xhtml", CHAPTER_TWO),
    ])
}

#[test]
fn sample_epub_passes_the_root_check() {
    assert!(epub_root_checked(&sample_epub()));
}

#[test]
fn epub_document_assembles_sections_under_headings() {
    let (title, sections) = epub_document(Some("stem"), &sample_epub()).expect("sample epub should parse");
    assert_eq!(title, "Sample Book");
    let got: Vec<(Option<&str>, Option<&str>, &str)> = sections
        .iter()
        .map(|s| (s.chapter.as_deref(), s.section.as_deref(), s.text.as_str()))
        .collect();
    let one = strip_html_tags(CHAPTER_ONE);
    let two = strip_html_tags(CHAPTER_TWO);
    assert_eq!(one, "Part OneHello world.");
    assert_eq!(
        got,
        vec![(Some("Part One"), None, one.as_str()), (Some("Part One"), Some("Origins"), two.as_str())]
    );
}

#[test]
fn extracts_text_from_sample_epub() {
    let result = extract_epub_text(&sample_epub()).expect("epub extraction should succeed");
    assert!(!result.trim().is_empty(), "extracted text must be non-empty");
    assert_eq!(result, format!("{CHAPTER_ONE}\n{CHAPTER_TWO}"));
}

#[test]
fn epub_with_an_empty_or_root_path_is_refused() {
    for root in ["", "/"] {
        let bytes = epub_with_root(root);
        assert!(!epub_root_checked(&bytes));
        match epub_document(Some("stem"), &bytes) {
            Err(IngestError::ParseFailed(m)) => {
                assert_eq!(m, "failed to open epub: unsupported root file path in META-INF/container.xml")
            }
            other => panic!("unexpected {other:?}"),
        }
        match extract_epub_text(&bytes) {
            Err(SpikeError::EpubFailed(m)) => assert_eq!(m, "unsupported root file path in META-INF/container.xml"),
            other => panic!("unexpected {other:?}"),
        }
    }
}
