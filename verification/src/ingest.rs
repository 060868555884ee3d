//! The ingestion pipeline's decisions: which extractor a file goes to, how
//! extracted text becomes citable chunks, and the `(source, location, text)`
//! passages written for a document.

use vstd::prelude::*;

use crate::chunking::{chunk_text, chunks_of, law_chunks_exist_iff_content, ChunkModel, ChunkingConfig};
use crate::error::IngestError;
use crate::extract::{
    section_models, EpubSection, ExtractedDocument, PageModel, SectionModel, page_models,
};
use crate::text::{decimal, from_chars, has_non_ws, lowercase, push_decimal, push_str_chars, to_chars, to_lowercase};

verus! {

/// A text chunk extracted from a document, with full citation metadata.
#[derive(Debug, Clone)]
pub struct Chunk {
    pub title: String,
    pub chapter: Option<String>,
    pub section: Option<String>,
    pub page: Option<u32>,
    pub text: String,
}

/// The contents of a [`Chunk`].
pub struct ChunkRecord {
    pub title: Seq<char>,
    pub chapter: Option<Seq<char>>,
    pub section: Option<Seq<char>>,
    pub page: Option<u32>,
    pub text: Seq<char>,
}

impl View for Chunk {
    type V = ChunkRecord;

    open spec fn view(&self) -> ChunkRecord {
        ChunkRecord {
            title: self.title@,
            chapter: self.chapter.deep_view(),
            section: self.section.deep_view(),
            page: self.page,
            text: self.text@,
        }
    }
}

/// The records of a sequence of chunks.
pub open spec fn chunk_records(cs: Seq<Chunk>) -> Seq<ChunkRecord> {
    cs.map_values(|c: Chunk| c@)
}

/// Summary returned after a successful ingestion run.
#[derive(Debug, Clone)]
pub struct IngestSummary {
    pub documents: usize,
    pub chunks: usize,
}

impl IngestSummary {
    /// The summary of ingesting one document into `chunks` passages.
    pub fn for_document(chunks: usize) -> (r: IngestSummary)
        ensures
            r.documents == 1,
            r.chunks == chunks,
    {
        IngestSummary { documents: 1, chunks }
    }
}

// ─── File kinds ─────────────────────────────────────────────────────────────

/// The extractor a file goes to.
#[derive(Debug)]
pub enum DocumentKind {
    Pdf,
    Epub,
    Markdown,
}

/// Two strings hold the same characters.
pub fn str_eq(a: &str, b: &str) -> (r: bool)
    ensures
        r == (a@ == b@),
{
    let av = to_chars(a);
    let bv = to_chars(b);
    if av.len() != bv.len() {
        return false;
    }
    let mut i: usize = 0;
    while i < av.len()
        invariant
            i <= av.len(),
            av.len() == bv.len(),
            av@ == a@,
            bv@ == b@,
            forall|j: int| 0 <= j < i ==> av@[j] == bv@[j],
        decreases av.len() - i,
    {
        if av[i] != bv[i] {
            assert(a@[i as int] != b@[i as int]);
            return false;
        }
        i = i + 1;
    }
    assert(av@ =~= bv@);
    true
}

/// The kind of a lowercased extension, if it is supported.
pub open spec fn kind_of_extension(lower: Seq<char>) -> Option<DocumentKind> {
    if lower == "pdf"@ {
        Some(DocumentKind::Pdf)
    } else if lower == "epub"@ {
        Some(DocumentKind::Epub)
    } else if lower == "md"@ || lower == "markdown"@ {
        Some(DocumentKind::Markdown)
    } else {
        None
    }
}

/// Chooses the extractor from a file's extension, compared after Unicode
/// lowercasing: `pdf`, `epub`, `md` and `markdown` are supported; a missing
/// extension and any other one are refused.
pub fn document_kind(extension: Option<&str>) -> (r: Result<DocumentKind, IngestError>)
    ensures
        extension is None ==> (r matches Err(IngestError::UnsupportedFileType(m)) && m@
            == "no file extension"@),
        extension matches Some(e) ==> match kind_of_extension(lowercase(e@)) {
            Some(k) => r == Ok::<DocumentKind, IngestError>(k),
            None => r matches Err(IngestError::UnsupportedFileType(m)) && m@
                == "unsupported file type: "@ + lowercase(e@),
        },
{
    match extension {
        None => Err(IngestError::UnsupportedFileType(String::from_str("no file extension"))),
        Some(e) => {
            let lower = to_lowercase(e);
            let l = lower.as_str();
            if str_eq(l, "pdf") {
                Ok(DocumentKind::Pdf)
            } else if str_eq(l, "epub") {
                Ok(DocumentKind::Epub)
            } else if str_eq(l, "md") || str_eq(l, "markdown") {
                Ok(DocumentKind::Markdown)
            } else {
                let mut m: Vec<char> = Vec::new();
                push_str_chars(&mut m, "unsupported file type: ");
                push_str_chars(&mut m, l);
                Err(IngestError::UnsupportedFileType(from_chars(&m)))
            }
        },
    }
}

// ─── Citation locations ─────────────────────────────────────────────────────

/// The human-readable location of a chunk: `page N` when the page is known;
/// otherwise `chapter > section`, `chapter`, `section`, or `unknown`.
pub open spec fn location_of(
    page: Option<u32>,
    chapter: Option<Seq<char>>,
    section: Option<Seq<char>>,
) -> Seq<char> {
    match page {
        Some(p) => "page "@ + decimal(p as nat),
        None => {
            let loc = match chapter {
                Some(c) => c,
                None => Seq::empty(),
            };
            let loc = match section {
                Some(s) => if loc.len() > 0 {
                    loc + " > "@ + s
                } else {
                    s
                },
                None => loc,
            };
            if loc.len() == 0 {
                "unknown"@
            } else {
                loc
            }
        },
    }
}

/// Format a human-readable location string from a chunk's metadata.
pub fn format_location(chunk: &Chunk) -> (r: String)
    ensures
        r@ == location_of(chunk.page, chunk.chapter.deep_view(), chunk.section.deep_view()),
{
    if let Some(page) = chunk.page {
        let mut v: Vec<char> = Vec::new();
        push_str_chars(&mut v, "page ");
        push_decimal(&mut v, page as u64);
        from_chars(&v)
    } else {
        let mut loc: Vec<char> = Vec::new();
        if let Some(chapter) = &chunk.chapter {
            push_str_chars(&mut loc, chapter.as_str());
        }
        if let Some(section) = &chunk.section {
            if loc.len() > 0 {
                push_str_chars(&mut loc, " > ");
            }
            push_str_chars(&mut loc, section.as_str());
        }
        proof {
            assert(Seq::<char>::empty() + chunk.section.deep_view().unwrap_or(Seq::empty())
                =~= chunk.section.deep_view().unwrap_or(Seq::empty()));
            assert(Seq::<char>::empty() + chunk.chapter.deep_view().unwrap_or(Seq::empty())
                =~= chunk.chapter.deep_view().unwrap_or(Seq::empty()));
        }
        if loc.len() == 0 {
            String::from_str("unknown")
        } else {
            from_chars(&loc)
        }
    }
}

// ─── Chunks of a document ───────────────────────────────────────────────────

/// The chunks of one piece of text under the given citation metadata, with
/// the default chunking configuration.
pub open spec fn text_chunks(
    title: Seq<char>,
    chapter: Option<Seq<char>>,
    section: Option<Seq<char>>,
    page: Option<u32>,
    text: Seq<char>,
) -> Seq<ChunkRecord> {
    chunks_of(text, 1000, 100).map_values(
        |c: ChunkModel| ChunkRecord { title, chapter, section, page, text: c.text },
    )
}

/// The chunks of a PDF: each page's chunks in page order, cited by page.
pub open spec fn pdf_chunks(title: Seq<char>, pages: Seq<PageModel>) -> Seq<ChunkRecord>
    decreases pages.len(),
{
    if pages.len() == 0 {
        Seq::empty()
    } else {
        pdf_chunks(title, pages.drop_last()) + text_chunks(
            title,
            None,
            None,
            Some(pages.last().page_number),
            pages.last().text,
        )
    }
}

/// The chunks of a sectioned document: each section's chunks in order,
/// cited by chapter and section.
pub open spec fn section_chunks(title: Seq<char>, sections: Seq<SectionModel>) -> Seq<
    ChunkRecord,
>
    decreases sections.len(),
{
    if sections.len() == 0 {
        Seq::empty()
    } else {
        section_chunks(title, sections.drop_last()) + text_chunks(
            title,
            sections.last().chapter,
            sections.last().section,
            None,
            sections.last().text,
        )
    }
}

fn clone_opt(o: &Option<String>) -> (r: Option<String>)
    ensures
        r.deep_view() == o.deep_view(),
{
    match o {
        Some(s) => Some(s.clone()),
        None => None,
    }
}

fn append_text_chunks(
    out: &mut Vec<Chunk>,
    title: &String,
    chapter: &Option<String>,
    section: &Option<String>,
    page: Option<u32>,
    text: &String,
)
    ensures
        chunk_records(final(out)@) == chunk_records(old(out)@) + text_chunks(
            title@,
            chapter.deep_view(),
            section.deep_view(),
            page,
            text@,
        ),
{
    let tcs = chunk_text(text.as_str(), ChunkingConfig::default());
    let ghost base = chunk_records(out@);
    let ghost all = text_chunks(title@, chapter.deep_view(), section.deep_view(), page, text@);
    let mut k: usize = 0;
    assert(chunk_records(out@) =~= base + all.take(0));
    while k < tcs.len()
        invariant
            k <= tcs.len(),
            all.len() == tcs.len(),
            all == text_chunks(title@, chapter.deep_view(), section.deep_view(), page, text@),
            crate::chunking::chunk_models(tcs@) == chunks_of(text@, 1000, 100),
            chunk_records(out@) == base + all.take(k as int),
        decreases tcs.len() - k,
    {
        let ghost before = chunk_records(out@);
        assert(tcs[k as int]@ == chunks_of(text@, 1000, 100)[k as int]);
        out.push(
            Chunk {
                title: title.clone(),
                chapter: clone_opt(chapter),
                section: clone_opt(section),
                page,
                text: tcs[k].text.clone(),
            },
        );
        assert(chunk_records(out@) =~= before.push(all[k as int]));
        k = k + 1;
        assert(chunk_records(out@) =~= base + all.take(k as int));
    }
    assert(all.take(tcs.len() as int) == all);
}

/// The chunks of a PDF document: every page chunked with the default
/// configuration, cited by title and page number.
pub fn chunks_from_pdf(doc: &ExtractedDocument) -> (r: Vec<Chunk>)
    ensures
        chunk_records(r@) == pdf_chunks(doc.title@, page_models(doc.pages@)),
{
    let ghost pages = page_models(doc.pages@);
    let mut out: Vec<Chunk> = Vec::new();
    let mut i: usize = 0;
    assert(chunk_records(out@) =~= Seq::<ChunkRecord>::empty());
    assert(pages.take(0) =~= Seq::<PageModel>::empty());
    while i < doc.pages.len()
        invariant
            i <= doc.pages.len(),
            pages == page_models(doc.pages@),
            chunk_records(out@) == pdf_chunks(doc.title@, pages.take(i as int)),
        decreases doc.pages.len() - i,
    {
        proof {
            assert(pages.take(i + 1).drop_last() =~= pages.take(i as int));
            assert(pages.take(i + 1).last() == doc.pages[i as int]@);
        }
        let page = &doc.pages[i];
        append_text_chunks(&mut out, &doc.title, &None, &None, Some(page.page_number), &page.text);
        i = i + 1;
    }
    assert(pages.take(doc.pages.len() as int) == pages);
    out
}

/// The chunks of a sectioned document (EPUB or Markdown): every section
/// chunked with the default configuration, cited by title, chapter and section.
pub fn chunks_from_sections(title: &String, sections: &Vec<EpubSection>) -> (r: Vec<Chunk>)
    ensures
        chunk_records(r@) == section_chunks(title@, section_models(sections@)),
{
    let ghost secs = section_models(sections@);
    let mut out: Vec<Chunk> = Vec::new();
    let mut i: usize = 0;
    assert(chunk_records(out@) =~= Seq::<ChunkRecord>::empty());
    assert(secs.take(0) =~= Seq::<SectionModel>::empty());
    while i < sections.len()
        invariant
            i <= sections.len(),
            secs == section_models(sections@),
            chunk_records(out@) == section_chunks(title@, secs.take(i as int)),
        decreases sections.len() - i,
    {
        proof {
            assert(secs.take(i + 1).drop_last() =~= secs.take(i as int));
            assert(secs.take(i + 1).last() == sections[i as int]@);
        }
        let s = &sections[i];
        append_text_chunks(&mut out, title, &s.chapter, &s.section, None, &s.text);
        i = i + 1;
    }
    assert(secs.take(sections.len() as int) == secs);
    out
}

/// The `(source, location, text)` passage written for a chunk.
pub open spec fn chunk_passage(c: ChunkRecord) -> (Seq<char>, Seq<char>, Seq<char>) {
    (c.title, location_of(c.page, c.chapter, c.section), c.text)
}

/// Converts chunks to `(source, location, text)` passages, in order.
pub fn passages_from_chunks(chunks: &Vec<Chunk>) -> (r: Vec<(String, String, String)>)
    ensures
        r.len() == chunks.len(),
        forall|k: int| 0 <= k < r.len() ==> (#[trigger] r[k])@ == chunk_passage(chunks[k]@),
{
    let mut r: Vec<(String, String, String)> = Vec::new();
    let mut k: usize = 0;
    while k < chunks.len()
        invariant
            k <= chunks.len(),
            r.len() == k,
            forall|j: int| 0 <= j < k ==> (#[trigger] r[j])@ == chunk_passage(chunks[j]@),
        decreases chunks.len() - k,
    {
        let c = &chunks[k];
        let location = format_location(c);
        r.push((c.title.clone(), location, c.text.clone()));
        k = k + 1;
    }
    r
}

// ─── Laws of document chunking ──────────────────────────────────────────────

/// Chunking a sectioned document works section by section: the chunks of
/// two runs of sections, one after the other, are the chunks of the first
/// run followed by those of the second.
pub proof fn law_section_chunks_concat(title: Seq<char>, a: Seq<SectionModel>, b: Seq<SectionModel>)
    ensures
        section_chunks(title, a + b) == section_chunks(title, a) + section_chunks(title, b),
    decreases b.len(),
{
    if b.len() == 0 {
        assert(a + b =~= a);
        assert(section_chunks(title, a) + section_chunks(title, b) =~= section_chunks(title, a));
    } else {
        law_section_chunks_concat(title, a, b.drop_last());
        assert((a + b).drop_last() =~= a + b.drop_last());
        assert((a + b).last() == b.last());
        let t = text_chunks(title, b.last().chapter, b.last().section, None, b.last().text);
        assert(section_chunks(title, a) + section_chunks(title, b.drop_last()) + t
            =~= section_chunks(title, a) + (section_chunks(title, b.drop_last()) + t));
    }
}

/// A single section is chunked like its text: its chunks are the chunks of
/// its text with the default configuration, each cited by the document's
/// title and the section's chapter and section.
pub proof fn law_section_chunks_single(title: Seq<char>, s: SectionModel)
    ensures
        section_chunks(title, seq![s]).len() == chunks_of(s.text, 1000, 100).len(),
        forall|k: int|
            0 <= k < section_chunks(title, seq![s]).len() ==> #[trigger] section_chunks(title, seq![s])[k]
                == (ChunkRecord {
                title,
                chapter: s.chapter,
                section: s.section,
                page: None,
                text: chunks_of(s.text, 1000, 100)[k].text,
            }),
{
    assert(seq![s].drop_last() =~= Seq::<SectionModel>::empty());
    assert(seq![s].last() == s);
    let t = text_chunks(title, s.chapter, s.section, None, s.text);
    assert(section_chunks(title, Seq::<SectionModel>::empty()) == Seq::<ChunkRecord>::empty());
    assert(section_chunks(title, seq![s]) == section_chunks(title, seq![s].drop_last()) + t);
    assert(Seq::<ChunkRecord>::empty() + t =~= t);
    assert(section_chunks(title, seq![s]) == t);
    assert(t.len() == chunks_of(s.text, 1000, 100).len());
}

/// No section is left out: every section whose text is not blank yields at
/// least one chunk, cited by its chapter and section, in the chunks of the
/// whole document.
pub proof fn law_every_section_chunked(title: Seq<char>, sections: Seq<SectionModel>, k: int)
    requires
        0 <= k < sections.len(),
        has_non_ws(sections[k].text),
    ensures
        exists|j: int|
            0 <= j < section_chunks(title, sections).len() && (#[trigger] section_chunks(title, sections)[j]).chapter
                == sections[k].chapter && section_chunks(title, sections)[j].section
                == sections[k].section,
{
    let a = sections.take(k);
    let m = seq![sections[k]];
    let b = sections.skip(k + 1);
    assert(sections =~= a + m + b);
    law_section_chunks_concat(title, a + m, b);
    law_section_chunks_concat(title, a, m);
    law_section_chunks_single(title, sections[k]);
    law_chunks_exist_iff_content(sections[k].text, 1000, 100);
    let j = section_chunks(title, a).len() as int;
    assert(section_chunks(title, sections)[j] == section_chunks(title, m)[0]);
}

} // verus!
