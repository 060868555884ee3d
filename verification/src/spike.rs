//! The parser canary: the text of a document is the text of its pages (or
//! spine items) that read, joined by newlines; a document that does not open
//! is a failure of its kind.

use vstd::prelude::*;

use crate::error::SpikeError;
use crate::extract::{
    epub_root_checked, epub_root_ok, epub_spine_of, pdf_page_texts, read_epub, readable_items,
    string_views, take_readable_items, unsupported_root_path,
};
use crate::text::{from_chars, join, push_str_chars};

verus! {

/// The pieces of a document's text joined by newlines.
pub fn join_lines(parts: &Vec<String>) -> (r: String)
    ensures
        r@ == join(string_views(parts@), seq!['\n']),
{
    let ghost views = string_views(parts@);
    let mut out: Vec<char> = Vec::new();
    let mut k: usize = 0;
    assert(views.take(0) =~= Seq::<Seq<char>>::empty());
    while k < parts.len()
        invariant
            k <= parts.len(),
            views == string_views(parts@),
            out@ == join(views.take(k as int), seq!['\n']),
        decreases parts.len() - k,
    {
        proof {
            assert(views.take(k + 1).drop_last() =~= views.take(k as int));
            assert(views.take(k + 1).last() == parts[k as int]@);
        }
        if k > 0 {
            out.push('\n');
        }
        push_str_chars(&mut out, parts[k].as_str());
        k = k + 1;
        assert(out@ =~= join(views.take(k as int), seq!['\n']));
    }
    assert(views.take(parts.len() as int) == views);
    from_chars(&out)
}

/// The text of every page that read, in order.
pub open spec fn readable_pages(pages: Seq<Result<String, String>>) -> Seq<Seq<char>>
    decreases pages.len(),
{
    if pages.len() == 0 {
        Seq::empty()
    } else {
        match pages.last() {
            Ok(t) => readable_pages(pages.drop_last()).push(t@),
            Err(_) => readable_pages(pages.drop_last()),
        }
    }
}

/// The canary text of a PDF's pages: the pages that read, joined by
/// newlines; pages that did not read are skipped.
pub fn pdf_canary_text(pages: &Vec<Result<String, String>>) -> (r: String)
    ensures
        r@ == join(readable_pages(pages@), seq!['\n']),
{
    let mut texts: Vec<String> = Vec::new();
    let mut i: usize = 0;
    assert(pages@.take(0) =~= Seq::<Result<String, String>>::empty());
    assert(string_views(texts@) =~= Seq::<Seq<char>>::empty());
    while i < pages.len()
        invariant
            i <= pages.len(),
            string_views(texts@) == readable_pages(pages@.take(i as int)),
        decreases pages.len() - i,
    {
        assert(pages@.take(i + 1).drop_last() =~= pages@.take(i as int));
        assert(pages@.take(i + 1).last() == pages@[i as int]);
        match &pages[i] {
            Ok(t) => {
                let ghost before = string_views(texts@);
                texts.push(t.clone());
                assert(string_views(texts@) =~= before.push(t@));
            },
            Err(_) => {},
        }
        i = i + 1;
    }
    assert(pages@.take(pages.len() as int) =~= pages@);
    join_lines(&texts)
}

/// Extract all text from the PDF with these bytes: the text of the pages
/// that read, joined by newlines. Whatever pdfium reads, a failure is a PDF
/// failure and a text is the canary text of some page outcomes.
pub fn extract_pdf_text(bytes: &[u8]) -> (r: Result<String, SpikeError>)
    ensures
        r matches Err(e) ==> e is PdfFailed,
        r matches Ok(t) ==> exists|pages: Seq<Result<String, String>>|
            t@ == join(#[trigger] readable_pages(pages), seq!['\n']),
{
    match pdf_page_texts(bytes) {
        Err(m) => Err(SpikeError::PdfFailed(m)),
        Ok(pages) => {
            let t = pdf_canary_text(&pages);
            assert(t@ == join(readable_pages(pages@), seq!['\n']));
            Ok(t)
        },
    }
}

/// Extract all text from the EPUB with these bytes: every spine item that
/// reads, in order, joined by newlines; bytes whose container does not name
/// its root file by a relative path, and bytes that do not open, are an EPUB
/// failure.
pub fn extract_epub_text(bytes: &[u8]) -> (r: Result<String, SpikeError>)
    ensures
        r is Err <==> !epub_root_ok(bytes@) || epub_spine_of(bytes@) is None,
        r matches Err(e) ==> e is EpubFailed,
        !epub_root_ok(bytes@) ==> (r matches Err(SpikeError::EpubFailed(m)) && m@
            == unsupported_root_path()),
        epub_root_ok(bytes@) ==> (epub_spine_of(bytes@) matches Some(items) ==> (r matches Ok(t)
            && t@ == join(readable_items(items), seq!['\n']))),
{
    if !epub_root_checked(bytes) {
        let cause = "unsupported root file path in META-INF/container.xml";
        proof {
            reveal_strlit("unsupported root file path in META-INF/container.xml");
        }
        return Err(SpikeError::EpubFailed(cause.to_string()));
    }
    match read_epub(bytes) {
        Err(m) => Err(SpikeError::EpubFailed(m)),
        Ok((_title, items)) => {
            let texts = take_readable_items(&items);
            Ok(join_lines(&texts))
        },
    }
}

} // verus!
