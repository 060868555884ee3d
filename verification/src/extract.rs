//! Turning extracted document text into citable pieces: PDF pages, EPUB
//! spine items with their chapter and section headings, and Markdown
//! sections, together with the HTML and front-matter handling they need.

use pdfium_render::prelude::Pdfium;
use pulldown_cmark::{Event, Tag, TagEnd};
use vstd::prelude::*;

use crate::error::IngestError;
use crate::text::{
    append_chars, from_chars, join, law_normalized_well_spaced, law_words_of_join, lemma_trim_props,
    lemma_words_clean, normalize_whitespace, normalize_ws,
    push_str_chars, to_chars, trim, trim_chars, trim_range, well_spaced, word_scan, words,
};

verus! {

/// A PDF document: its title and its pages that hold text.
#[derive(Debug, Clone)]
pub struct ExtractedDocument {
    pub title: String,
    pub pages: Vec<ExtractedPage>,
}

/// The text of one PDF page and its 1-based page number.
#[derive(Debug, Clone)]
pub struct ExtractedPage {
    pub page_number: u32,
    pub text: String,
}

/// A piece of a book's text with the chapter and section it falls under.
#[derive(Debug, Clone)]
pub struct EpubSection {
    pub chapter: Option<String>,
    pub section: Option<String>,
    pub text: String,
}

/// The contents of an [`EpubSection`].
pub struct SectionModel {
    pub chapter: Option<Seq<char>>,
    pub section: Option<Seq<char>>,
    pub text: Seq<char>,
}

impl View for EpubSection {
    type V = SectionModel;

    open spec fn view(&self) -> SectionModel {
        SectionModel {
            chapter: self.chapter.deep_view(),
            section: self.section.deep_view(),
            text: self.text@,
        }
    }
}

/// The models of a sequence of sections.
pub open spec fn section_models(ss: Seq<EpubSection>) -> Seq<SectionModel> {
    ss.map_values(|s: EpubSection| s@)
}

/// The contents of an [`ExtractedPage`].
pub struct PageModel {
    pub page_number: u32,
    pub text: Seq<char>,
}

impl View for ExtractedPage {
    type V = PageModel;

    open spec fn view(&self) -> PageModel {
        PageModel { page_number: self.page_number, text: self.text@ }
    }
}

/// The models of a sequence of pages.
pub open spec fn page_models(ps: Seq<ExtractedPage>) -> Seq<PageModel> {
    ps.map_values(|p: ExtractedPage| p@)
}

fn clone_opt(o: &Option<String>) -> (r: Option<String>)
    ensures
        r.deep_view() == o.deep_view(),
{
    match o {
        Some(s) => Some(s.clone()),
        None => None,
    }
}

// ─── Substring search ───────────────────────────────────────────────────────

/// `p` occurs in `s` at position `i`.
pub open spec fn occurs_at(s: Seq<char>, p: Seq<char>, i: int) -> bool {
    0 <= i && i + p.len() <= s.len() && s.subrange(i, i + p.len()) == p
}

/// The first position at or after `from` where `p` occurs in `s` (`str::find`).
pub open spec fn first_occurrence(s: Seq<char>, p: Seq<char>, from: int) -> Option<int>
    decreases s.len() + 1 - from,
{
    if from < 0 || from + p.len() > s.len() {
        None
    } else if occurs_at(s, p, from) {
        Some(from)
    } else {
        first_occurrence(s, p, from + 1)
    }
}

proof fn lemma_first_occurrence_skip(s: Seq<char>, p: Seq<char>, from: int, i: int)
    requires
        0 <= from <= i,
        forall|j: int| from <= j < i ==> !occurs_at(s, p, j),
        i + p.len() <= s.len() + 1,
    ensures
        first_occurrence(s, p, from) == first_occurrence(s, p, i),
    decreases i - from,
{
    if from < i {
        lemma_first_occurrence_skip(s, p, from + 1, i);
    }
}

proof fn lemma_first_occurrence_found(s: Seq<char>, p: Seq<char>, from: int, i: int)
    requires
        first_occurrence(s, p, from) == Some(i),
    ensures
        from <= i,
        occurs_at(s, p, i),
    decreases s.len() + 1 - from,
{
    if !(from < 0 || from + p.len() > s.len()) && !occurs_at(s, p, from) {
        lemma_first_occurrence_found(s, p, from + 1, i);
    }
}

fn occurs_at_exec(s: &Vec<char>, p: &Vec<char>, i: usize) -> (r: bool)
    requires
        i + p.len() <= s.len(),
    ensures
        r == occurs_at(s@, p@, i as int),
{
    let mut j: usize = 0;
    while j < p.len()
        invariant
            j <= p.len(),
            i + p.len() <= s.len(),
            forall|k: int| 0 <= k < j ==> s@[i + k] == p@[k],
        decreases p.len() - j,
    {
        if s[i + j] != p[j] {
            assert(s@.subrange(i as int, i + p.len())[j as int] != p@[j as int]);
            return false;
        }
        j = j + 1;
    }
    assert(s@.subrange(i as int, i + p.len()) =~= p@);
    true
}

/// The first occurrence of `p` in `s` at or after `from`.
pub fn find_chars(s: &Vec<char>, p: &Vec<char>, from: usize) -> (r: Option<usize>)
    ensures
        r matches Some(i) ==> first_occurrence(s@, p@, from as int) == Some(i as int),
        r is None ==> first_occurrence(s@, p@, from as int) is None,
{
    if from > s.len() || p.len() > s.len() - from {
        return None;
    }
    let mut i: usize = from;
    while i <= s.len() && p.len() <= s.len() - i
        invariant
            from <= i,
            from + p.len() <= s.len(),
            i + p.len() <= s.len() + 1,
            forall|j: int| from <= j < i ==> !occurs_at(s@, p@, j),
        decreases s.len() + 1 - i,
    {
        if p.len() == 0 {
            assert(s@.subrange(i as int, i as int) =~= p@);
        }
        if occurs_at_exec(s, p, i) {
            proof {
                lemma_first_occurrence_skip(s@, p@, from as int, i as int);
            }
            return Some(i);
        }
        i = i + 1;
    }
    proof {
        lemma_first_occurrence_skip(s@, p@, from as int, i as int);
    }
    None
}

// ─── HTML ───────────────────────────────────────────────────────────────────

/// The text of the first `<tag>…</tag>` element: the characters between the
/// first opening tag and the first closing tag after it, trimmed.
pub open spec fn heading_of(html: Seq<char>, tag: Seq<char>) -> Option<Seq<char>> {
    let open = "<"@ + tag + ">"@;
    let close = "</"@ + tag + ">"@;
    match first_occurrence(html, open, 0) {
        None => None,
        Some(a) => match first_occurrence(html, close, a + open.len()) {
            None => None,
            Some(b) => Some(trim(html.subrange(a + open.len(), b))),
        },
    }
}

/// Extract the first heading of a given tag type from HTML content.
pub fn extract_heading(html: &str, tag: &str) -> (r: Option<String>)
    ensures
        r.deep_view() == heading_of(html@, tag@),
{
    let h = to_chars(html);
    let mut open: Vec<char> = Vec::new();
    open.push('<');
    push_str_chars(&mut open, tag);
    open.push('>');
    let mut close: Vec<char> = Vec::new();
    push_str_chars(&mut close, "</");
    push_str_chars(&mut close, tag);
    push_str_chars(&mut close, ">");
    proof {
        reveal_strlit("<");
        reveal_strlit(">");
        assert(open@ =~= "<"@ + tag@ + ">"@);
    }
    match find_chars(&h, &open, 0) {
        None => None,
        Some(start) => {
            proof {
                lemma_first_occurrence_found(h@, open@, 0, start as int);
            }
            assert(start + open.len() <= h.len());
            let start_pos = start + open.len();
            match find_chars(&h, &close, start_pos) {
                None => None,
                Some(end) => {
                    proof {
                        lemma_first_occurrence_found(h@, close@, start_pos as int, end as int);
                    }
                    let t = trim_range(&h, start_pos, end);
                    Some(from_chars(&t))
                },
            }
        },
    }
}

/// The characters outside tags, and whether the scan ends inside a tag:
/// `<` opens a tag, `>` closes one, and neither is kept.
pub open spec fn tag_scan(s: Seq<char>) -> (Seq<char>, bool)
    decreases s.len(),
{
    if s.len() == 0 {
        (Seq::empty(), false)
    } else {
        let (kept, in_tag) = tag_scan(s.drop_last());
        let c = s.last();
        if c == '<' {
            (kept, true)
        } else if c == '>' {
            (kept, false)
        } else if !in_tag {
            (kept.push(c), in_tag)
        } else {
            (kept, in_tag)
        }
    }
}

/// The plain text of HTML: the characters outside tags, whitespace-normalized.
pub open spec fn strip_tags(html: Seq<char>) -> Seq<char> {
    normalize_ws(tag_scan(html).0)
}

fn text_outside_tags(h: &Vec<char>) -> (r: Vec<char>)
    ensures
        r@ == tag_scan(h@).0,
{
    let mut kept: Vec<char> = Vec::new();
    let mut in_tag = false;
    let mut i: usize = 0;
    while i < h.len()
        invariant
            i <= h.len(),
            (kept@, in_tag) == tag_scan(h@.take(i as int)),
        decreases h.len() - i,
    {
        let c = h[i];
        proof {
            assert(h@.take(i + 1).drop_last() =~= h@.take(i as int));
        }
        if c == '<' {
            in_tag = true;
        } else if c == '>' {
            in_tag = false;
        } else if !in_tag {
            kept.push(c);
        }
        i = i + 1;
    }
    assert(h@.take(h.len() as int) == h@);
    kept
}

/// Strip all HTML tags from content, leaving only plain text with
/// whitespace runs collapsed to single spaces.
pub fn strip_html_tags(html: &str) -> (r: String)
    ensures
        r@ == strip_tags(html@),
{
    let h = to_chars(html);
    let kept = text_outside_tags(&h);
    let t = normalize_whitespace(&kept);
    from_chars(&t)
}

// ─── Front matter ───────────────────────────────────────────────────────────

/// The end of the line that starts at `o`: the first `'\n'` at or after `o`,
/// or the end of the text.
pub open spec fn line_end(s: Seq<char>, o: int) -> int
    decreases s.len() - o,
{
    if o >= s.len() || o < 0 {
        s.len() as int
    } else if s[o] == '\n' {
        o
    } else {
        line_end(s, o + 1)
    }
}

/// The line `s[o..e]` reads `---` once trailing carriage returns are dropped.
pub open spec fn is_fence_line(s: Seq<char>, o: int, e: int) -> bool {
    &&& o + 3 <= e
    &&& s.subrange(o, o + 3) == "---"@
    &&& forall|j: int| o + 3 <= j < e ==> s[j] == '\r'
}

/// The closing fence: the first line at or after line start `o` that reads
/// `---`, as the line's start and end.
pub open spec fn closing_fence(s: Seq<char>, o: int) -> Option<(int, int)>
    decreases s.len() + 1 - o,
{
    if o < 0 || o > s.len() {
        None
    } else {
        let e = line_end(s, o);
        proof {
            lemma_line_end_bounds(s, o);
        }
        if is_fence_line(s, o, e) {
            Some((o, e))
        } else if e >= s.len() {
            None
        } else {
            closing_fence(s, e + 1)
        }
    }
}

/// Length of the opening fence line: `---\r\n` or `---\n`, or 0 when the
/// content does not start with one.
pub open spec fn opening_fence_len(c: Seq<char>) -> int {
    if c.len() >= 5 && c.subrange(0, 5) == "---\r\n"@ {
        5
    } else if c.len() >= 4 && c.subrange(0, 4) == "---\n"@ {
        4
    } else {
        0
    }
}

/// The content after a leading front-matter block: everything after the
/// closing fence line (and its newline); the content unchanged when there is
/// no opening fence or no closing one.
pub open spec fn after_front_matter(c: Seq<char>) -> Seq<char> {
    let p = opening_fence_len(c);
    if p == 0 {
        c
    } else {
        let rest = c.skip(p);
        match closing_fence(rest, 0) {
            None => c,
            Some((o, e)) => if e < rest.len() {
                rest.skip(e + 1)
            } else {
                rest.skip(o + 3)
            },
        }
    }
}

pub proof fn lemma_line_end_bounds(s: Seq<char>, o: int)
    requires
        0 <= o <= s.len(),
    ensures
        o <= line_end(s, o) <= s.len(),
    decreases s.len() - o,
{
    if o < s.len() && s[o] != '\n' {
        lemma_line_end_bounds(s, o + 1);
    }
}

proof fn lemma_line_end(s: Seq<char>, o: int, i: int)
    requires
        0 <= o <= i <= s.len(),
        forall|j: int| o <= j < i ==> s[j] != '\n',
        i == s.len() || s[i] == '\n',
    ensures
        line_end(s, o) == i,
    decreases i - o,
{
    if o < i {
        lemma_line_end(s, o + 1, i);
    }
}

fn starts_with_at(v: &Vec<char>, at: usize, p: &str) -> (r: bool)
    requires
        at <= v.len(),
    ensures
        r == (at + p@.len() <= v.len() && v@.subrange(at as int, at + p@.len()) == p@),
{
    let pv = to_chars(p);
    if pv.len() > v.len() - at {
        return false;
    }
    occurs_at_exec(v, &pv, at)
}

/// Strip a leading YAML front-matter block (`---` … `---`) from the content.
///
/// If the content does not begin with exactly `---` (followed by a newline)
/// or there is no closing `---` fence, the content is returned unchanged.
pub fn strip_front_matter(content: &str) -> (r: &str)
    ensures
        r@ == after_front_matter(content@),
{
    let c = to_chars(content);
    let p: usize = if starts_with_at(&c, 0, "---\r\n") {
        5
    } else if starts_with_at(&c, 0, "---\n") {
        4
    } else {
        0
    };
    proof {
        reveal_strlit("---\r\n");
        reveal_strlit("---\n");
        assert(opening_fence_len(c@) == p as int);
    }
    if p == 0 {
        return content.substring_char(0, c.len());
    }
    let ghost rest = c@.skip(p as int);
    let n = c.len();
    let mut o: usize = p;
    // `o` walks the line starts of `rest`, shifted by `p`
    loop
        invariant
            0 < p <= o <= n,
            n == c.len(),
            rest == c@.skip(p as int),
            c@ == content@,
            opening_fence_len(c@) == p as int,
            closing_fence(rest, 0) == closing_fence(rest, o - p),
        decreases n - o,
    {
        let mut e: usize = o;
        while e < n && c[e] != '\n'
            invariant
                o <= e <= n,
                n == c.len(),
                forall|j: int| o <= j < e ==> c@[j] != '\n',
            decreases n - e,
        {
            e = e + 1;
        }
        proof {
            assert forall|j: int| o - p <= j < e - p implies rest[j] != '\n' by {
                assert(rest[j] == c@[j + p]);
            }
            if e < n {
                assert(rest[e - p] == c@[e as int]);
            }
            lemma_line_end(rest, o - p, e - p);
        }
        let mut fence = e - o >= 3 && starts_with_at(&c, o, "---");
        if fence {
            let mut j: usize = o + 3;
            while j < e && c[j] == '\r'
                invariant
                    o + 3 <= j <= e <= n,
                    n == c.len(),
                    forall|k: int| o + 3 <= k < j ==> c@[k] == '\r',
                decreases e - j,
            {
                j = j + 1;
            }
            proof {
                if j < e {
                    assert(rest[j - p] == c@[j as int]);
                } else {
                    assert forall|k: int| o - p + 3 <= k < e - p implies rest[k] == '\r' by {
                        assert(rest[k] == c@[k + p]);
                    }
                }
            }
            fence = j == e;
        }
        proof {
            reveal_strlit("---");
            if e - o >= 3 {
                assert(c@.subrange(o as int, o + 3) =~= rest.subrange(o - p, o - p + 3));
            }
            assert(fence == is_fence_line(rest, o - p, e - p));
        }
        if fence {
            let start = if e < n {
                e + 1
            } else {
                o + 3
            };
            proof {
                assert(c@.skip(start as int) =~= rest.skip(start - p));
                assert(closing_fence(rest, o - p) == Some((o - p, e - p)));
                assert(opening_fence_len(c@) == p as int);
                assert(content@.subrange(start as int, n as int) =~= c@.skip(start as int));
                assert(rest.len() == n - p);
                let expected = if e - p < rest.len() {
                    rest.skip(e - p + 1)
                } else {
                    rest.skip(o - p + 3)
                };
                assert(expected =~= c@.skip(start as int));
                assert(closing_fence(rest, 0) == Some((o - p, e - p)));
                assert(after_front_matter(c@) == expected);
            }
            return content.substring_char(start, n);
        }
        if e >= n {
            return content.substring_char(0, n);
        }
        o = e + 1;
    }
}

// ─── Markdown ───────────────────────────────────────────────────────────────

/// The Markdown parser events that section assembly reads.
#[derive(Debug)]
pub enum MdEvent {
    /// Start of a heading of the given level (1 for `#`, 2 for `##`, ...).
    HeadingStart(u8),
    /// End of a heading.
    HeadingEnd,
    /// A text node.
    Text(String),
    /// An inline code span.
    Code(String),
    /// A soft line break.
    SoftBreak,
    /// A hard line break.
    HardBreak,
    /// Any other event (paragraph, emphasis and list boundaries, HTML, ...).
    Other,
}

/// The event stream `pulldown_cmark::Parser::new` produces for `content`
/// (CommonMark, default options), as [`MdEvent`]s.
pub uninterp spec fn markdown_events(content: Seq<char>) -> Seq<MdEvent>;

/// Runs `pulldown_cmark::Parser::new(content)` and converts each event into
/// an [`MdEvent`]; the contract names the resulting stream, which depends on
/// the content alone.
#[verifier::external_body]
fn parse_markdown_events(content: &str) -> (events: Vec<MdEvent>)
    ensures
        events@ == markdown_events(content@),
{
    pulldown_cmark::Parser::new(content).map(|event| match event {
        Event::Start(Tag::Heading { level, .. }) => MdEvent::HeadingStart(level as u8),
        Event::End(TagEnd::Heading(_)) => MdEvent::HeadingEnd,
        Event::Text(t) => MdEvent::Text(t.into_string()),
        Event::Code(t) => MdEvent::Code(t.into_string()),
        Event::SoftBreak => MdEvent::SoftBreak,
        Event::HardBreak => MdEvent::HardBreak,
        _ => MdEvent::Other,
    }).collect()
}

/// Section assembly state: sections so far, the current chapter and section
/// headings, the body text gathered since the last heading, and the heading
/// being read.
pub struct MdState {
    pub sections: Seq<SectionModel>,
    pub chapter: Option<Seq<char>>,
    pub section: Option<Seq<char>>,
    pub body: Seq<char>,
    pub in_heading: bool,
    pub heading: Seq<char>,
    pub pending: Option<u8>,
}

pub open spec fn initial_md_state() -> MdState {
    MdState {
        sections: Seq::empty(),
        chapter: None,
        section: None,
        body: Seq::empty(),
        in_heading: false,
        heading: Seq::empty(),
        pending: None,
    }
}

/// Emits the gathered body as a section under the current headings, with
/// whitespace normalized, unless it is blank.
pub open spec fn flush_model(
    sections: Seq<SectionModel>,
    chapter: Option<Seq<char>>,
    section: Option<Seq<char>>,
    body: Seq<char>,
) -> Seq<SectionModel> {
    let text = normalize_ws(body);
    if text.len() > 0 {
        sections.push(SectionModel { chapter, section, text })
    } else {
        sections
    }
}

/// One event: a heading start flushes the body; a level-1 heading sets the
/// chapter and clears the section, a level-2 heading sets the section, a
/// deeper heading's text joins the body; text and code go to the heading or
/// the body; line breaks outside headings become spaces.
pub open spec fn md_step(st: MdState, ev: MdEvent) -> MdState {
    match ev {
        MdEvent::HeadingStart(level) => MdState {
            sections: flush_model(st.sections, st.chapter, st.section, st.body),
            chapter: st.chapter,
            section: st.section,
            body: Seq::empty(),
            in_heading: true,
            heading: Seq::empty(),
            pending: Some(level),
        },
        MdEvent::HeadingEnd => {
            let h = trim(st.heading);
            if st.pending == Some(1u8) {
                MdState {
                    sections: st.sections,
                    chapter: Some(h),
                    section: None,
                    body: st.body,
                    in_heading: false,
                    heading: st.heading,
                    pending: None,
                }
            } else if st.pending == Some(2u8) {
                MdState {
                    sections: st.sections,
                    chapter: st.chapter,
                    section: Some(h),
                    body: st.body,
                    in_heading: false,
                    heading: st.heading,
                    pending: None,
                }
            } else {
                MdState {
                    sections: st.sections,
                    chapter: st.chapter,
                    section: st.section,
                    body: st.body + h,
                    in_heading: false,
                    heading: st.heading,
                    pending: None,
                }
            }
        },
        MdEvent::Text(t) => md_text(st, t@),
        MdEvent::Code(t) => md_text(st, t@),
        MdEvent::SoftBreak => md_break(st),
        MdEvent::HardBreak => md_break(st),
        MdEvent::Other => st,
    }
}

/// Text goes to the heading being read, or else to the body.
pub open spec fn md_text(st: MdState, t: Seq<char>) -> MdState {
    if st.in_heading {
        MdState {
            sections: st.sections,
            chapter: st.chapter,
            section: st.section,
            body: st.body,
            in_heading: st.in_heading,
            heading: st.heading + t,
            pending: st.pending,
        }
    } else {
        MdState {
            sections: st.sections,
            chapter: st.chapter,
            section: st.section,
            body: st.body + t,
            in_heading: st.in_heading,
            heading: st.heading,
            pending: st.pending,
        }
    }
}

/// A line break outside a heading becomes a space in the body.
pub open spec fn md_break(st: MdState) -> MdState {
    if st.in_heading {
        st
    } else {
        MdState {
            sections: st.sections,
            chapter: st.chapter,
            section: st.section,
            body: st.body.push(' '),
            in_heading: st.in_heading,
            heading: st.heading,
            pending: st.pending,
        }
    }
}

/// The state after the given events.
pub open spec fn md_fold(events: Seq<MdEvent>) -> MdState
    decreases events.len(),
{
    if events.len() == 0 {
        initial_md_state()
    } else {
        md_step(md_fold(events.drop_last()), events.last())
    }
}

/// The sections of an event stream: those emitted along the way, then the
/// trailing body.
pub open spec fn md_sections(events: Seq<MdEvent>) -> Seq<SectionModel> {
    let st = md_fold(events);
    flush_model(st.sections, st.chapter, st.section, st.body)
}

/// Drain `body`, normalise whitespace, and push a non-empty section.
fn flush_section(
    sections: &mut Vec<EpubSection>,
    chapter: &Option<String>,
    section: &Option<String>,
    body: &mut Vec<char>,
)
    ensures
        section_models(final(sections)@) == flush_model(
            section_models(old(sections)@),
            chapter.deep_view(),
            section.deep_view(),
            old(body)@,
        ),
        final(body)@.len() == 0,
{
    let text = normalize_whitespace(body);
    *body = Vec::new();
    if text.len() > 0 {
        let ghost old_models = section_models(sections@);
        sections.push(
            EpubSection {
                chapter: clone_opt(chapter),
                section: clone_opt(section),
                text: from_chars(&text),
            },
        );
        assert(section_models(sections@) =~= old_models.push(
            SectionModel {
                chapter: chapter.deep_view(),
                section: section.deep_view(),
                text: text@,
            },
        ));
    }
}

/// Assembles sections from a Markdown event stream (see [`md_step`]).
pub fn sections_from_events(events: &Vec<MdEvent>) -> (r: Vec<EpubSection>)
    ensures
        section_models(r@) == md_sections(events@),
{
    let mut sections: Vec<EpubSection> = Vec::new();
    let mut chapter: Option<String> = None;
    let mut section: Option<String> = None;
    let mut body: Vec<char> = Vec::new();
    let mut in_heading = false;
    let mut heading: Vec<char> = Vec::new();
    let mut pending: Option<u8> = None;
    let mut i: usize = 0;
    assert(section_models(sections@) =~= Seq::<SectionModel>::empty());
    assert(body@ =~= Seq::<char>::empty());
    assert(heading@ =~= Seq::<char>::empty());
    assert(events@.take(0) =~= Seq::<MdEvent>::empty());
    while i < events.len()
        invariant
            i <= events.len(),
            md_fold(events@.take(i as int)) == (MdState {
                sections: section_models(sections@),
                chapter: chapter.deep_view(),
                section: section.deep_view(),
                body: body@,
                in_heading,
                heading: heading@,
                pending,
            }),
        decreases events.len() - i,
    {
        proof {
            assert(events@.take(i + 1).drop_last() =~= events@.take(i as int));
        }
        let ghost st = md_fold(events@.take(i as int));
        let ghost next = md_step(st, events@[i as int]);
        match &events[i] {
            MdEvent::HeadingStart(level) => {
                flush_section(&mut sections, &chapter, &section, &mut body);
                in_heading = true;
                heading = Vec::new();
                pending = Some(*level);
                assert(body@ =~= next.body);
                assert(heading@ =~= next.heading);
            },
            MdEvent::HeadingEnd => {
                in_heading = false;
                let h = trim_chars(&heading);
                match pending {
                    Some(1u8) => {
                        chapter = Some(from_chars(&h));
                        section = None;
                    },
                    Some(2u8) => {
                        section = Some(from_chars(&h));
                    },
                    _ => {
                        append_chars(&mut body, &h);
                    },
                }
                pending = None;
            },
            MdEvent::Text(t) => {
                let tv = to_chars(t.as_str());
                if in_heading {
                    append_chars(&mut heading, &tv);
                } else {
                    append_chars(&mut body, &tv);
                }
            },
            MdEvent::Code(t) => {
                let tv = to_chars(t.as_str());
                if in_heading {
                    append_chars(&mut heading, &tv);
                } else {
                    append_chars(&mut body, &tv);
                }
            },
            MdEvent::SoftBreak => {
                if !in_heading {
                    body.push(' ');
                }
            },
            MdEvent::HardBreak => {
                if !in_heading {
                    body.push(' ');
                }
            },
            MdEvent::Other => {},
        }
        i = i + 1;
        assert(md_fold(events@.take(i as int)) == next);
    }
    assert(events@.take(events.len() as int) == events@);
    flush_section(&mut sections, &chapter, &section, &mut body);
    sections
}

/// Parse Markdown content into sections: `#` headings set the chapter (and
/// clear the section), `##` headings set the section, deeper headings and
/// body text accumulate, line breaks become spaces, and each heading flushes
/// the body gathered under the previous one.
pub fn parse_markdown_sections(content: &str) -> (r: Vec<EpubSection>)
    ensures
        section_models(r@) == md_sections(markdown_events(content@)),
{
    let events = parse_markdown_events(content);
    sections_from_events(&events)
}

// ─── Documents ──────────────────────────────────────────────────────────────

/// The title taken from a file stem, or `unknown` when there is none.
pub open spec fn stem_title(stem: Option<Seq<char>>) -> Seq<char> {
    match stem {
        Some(s) => s,
        None => "unknown"@,
    }
}

/// The title for a file with the given stem (`unknown` when it has none).
pub fn title_from_stem(stem: Option<&str>) -> (r: String)
    ensures
        r@ == stem_title(
            match stem {
                Some(s) => Some(s@),
                None => None,
            },
        ),
{
    match stem {
        Some(s) => s.to_owned(),
        None => String::from_str("unknown"),
    }
}

/// The pages that hold text: page `i + 1` for each text `i` that is not blank.
pub open spec fn pages_of(texts: Seq<Seq<char>>) -> Seq<PageModel>
    decreases texts.len(),
{
    if texts.len() == 0 {
        Seq::empty()
    } else {
        let prev = pages_of(texts.drop_last());
        if trim(texts.last()).len() > 0 {
            prev.push(PageModel { page_number: texts.len() as u32, text: texts.last() })
        } else {
            prev
        }
    }
}

/// The views of a list of strings.
pub open spec fn string_views(v: Seq<String>) -> Seq<Seq<char>> {
    v.map_values(|s: String| s@)
}

/// Assembles a PDF document from the text of each of its pages, in order:
/// blank pages are left out, the others keep their 1-based page number, and
/// a document without any text is refused.
pub fn pdf_document(title: String, page_texts: &Vec<String>) -> (r: Result<
    ExtractedDocument,
    IngestError,
>)
    ensures
        pages_of(string_views(page_texts@)).len() == 0 ==> (r matches Err(
            IngestError::ParseFailed(m),
        ) && m@ == "empty document"@),
        pages_of(string_views(page_texts@)).len() > 0 ==> (r matches Ok(d) && d.title@ == title@
            && page_models(d.pages@) == pages_of(string_views(page_texts@))),
{
    let ghost texts = string_views(page_texts@);
    let mut pages: Vec<ExtractedPage> = Vec::new();
    let mut i: usize = 0;
    assert(page_models(pages@) =~= pages_of(texts.take(0)));
    while i < page_texts.len()
        invariant
            i <= page_texts.len(),
            texts == string_views(page_texts@),
            page_models(pages@) == pages_of(texts.take(i as int)),
        decreases page_texts.len() - i,
    {
        proof {
            assert(texts.take(i + 1).drop_last() =~= texts.take(i as int));
            assert(texts.take(i + 1).last() == page_texts[i as int]@);
        }
        let v = to_chars(page_texts[i].as_str());
        let t = trim_chars(&v);
        if t.len() > 0 {
            let ghost old_models = page_models(pages@);
            let n = (i + 1) as u32;
            pages.push(ExtractedPage { page_number: n, text: page_texts[i].clone() });
            assert(page_models(pages@) =~= old_models.push(
                PageModel { page_number: n, text: page_texts[i as int]@ },
            ));
        }
        i = i + 1;
    }
    assert(texts.take(page_texts.len() as int) == texts);
    if pages.len() == 0 {
        return Err(IngestError::ParseFailed(String::from_str("empty document")));
    }
    Ok(ExtractedDocument { title, pages })
}

/// EPUB assembly state: sections so far and the current chapter and section.
pub struct EpubState {
    pub sections: Seq<SectionModel>,
    pub chapter: Option<Seq<char>>,
    pub section: Option<Seq<char>>,
}

/// One spine item: its first `<h1>` sets the chapter and clears the section,
/// its first `<h2>` sets the section, and its tag-stripped text becomes a
/// section under the current headings unless blank.
pub open spec fn epub_step(st: EpubState, html: Seq<char>) -> EpubState {
    let (chapter, section) = match heading_of(html, "h1"@) {
        Some(h) => (Some(h), None),
        None => (st.chapter, st.section),
    };
    let section = match heading_of(html, "h2"@) {
        Some(h) => Some(h),
        None => section,
    };
    let text = strip_tags(html);
    let sections = if trim(text).len() > 0 {
        st.sections.push(SectionModel { chapter, section, text })
    } else {
        st.sections
    };
    EpubState { sections, chapter, section }
}

/// The state after the given spine items.
pub open spec fn epub_fold(items: Seq<Seq<char>>) -> EpubState
    decreases items.len(),
{
    if items.len() == 0 {
        EpubState { sections: Seq::empty(), chapter: None, section: None }
    } else {
        epub_step(epub_fold(items.drop_last()), items.last())
    }
}

/// Assembles the sections of an EPUB from the HTML of its spine items, in
/// reading order; a book without any text is refused.
pub fn epub_sections(contents: &Vec<String>) -> (r: Result<Vec<EpubSection>, IngestError>)
    ensures
        epub_fold(string_views(contents@)).sections.len() == 0 ==> (r matches Err(
            IngestError::ParseFailed(m),
        ) && m@ == "empty document"@),
        epub_fold(string_views(contents@)).sections.len() > 0 ==> (r matches Ok(v)
            && section_models(v@) == epub_fold(string_views(contents@)).sections),
{
    let ghost items = string_views(contents@);
    let mut sections: Vec<EpubSection> = Vec::new();
    let mut chapter: Option<String> = None;
    let mut section: Option<String> = None;
    let mut i: usize = 0;
    assert(section_models(sections@) =~= Seq::<SectionModel>::empty());
    assert(items.take(0) =~= Seq::<Seq<char>>::empty());
    while i < contents.len()
        invariant
            i <= contents.len(),
            items == string_views(contents@),
            epub_fold(items.take(i as int)) == (EpubState {
                sections: section_models(sections@),
                chapter: chapter.deep_view(),
                section: section.deep_view(),
            }),
        decreases contents.len() - i,
    {
        proof {
            assert(items.take(i + 1).drop_last() =~= items.take(i as int));
            assert(items.take(i + 1).last() == contents[i as int]@);
            reveal_strlit("h1");
            reveal_strlit("h2");
        }
        let content = contents[i].as_str();
        if let Some(h1) = extract_heading(content, "h1") {
            chapter = Some(h1);
            section = None;
        }
        if let Some(h2) = extract_heading(content, "h2") {
            section = Some(h2);
        }
        let text = strip_html_tags(content);
        let tv = to_chars(text.as_str());
        let tt = trim_chars(&tv);
        if tt.len() > 0 {
            let ghost old_models = section_models(sections@);
            sections.push(
                EpubSection { chapter: clone_opt(&chapter), section: clone_opt(&section), text },
            );
            assert(section_models(sections@) =~= old_models.push(
                SectionModel {
                    chapter: chapter.deep_view(),
                    section: section.deep_view(),
                    text: strip_tags(contents[i as int]@),
                },
            ));
        }
        i = i + 1;
    }
    assert(items.take(contents.len() as int) == items);
    if sections.len() == 0 {
        return Err(IngestError::ParseFailed(String::from_str("empty document")));
    }
    Ok(sections)
}

/// The title of an EPUB: its `title` metadata, else the file stem, else `unknown`.
pub fn epub_title(metadata_title: Option<String>, stem: Option<&str>) -> (r: String)
    ensures
        r@ == match metadata_title {
            Some(t) => t@,
            None => stem_title(
                match stem {
                    Some(s) => Some(s@),
                    None => None,
                },
            ),
        },
{
    match metadata_title {
        Some(t) => t,
        None => title_from_stem(stem),
    }
}

/// A Markdown document: the title from the file stem and the sections of the
/// content after its front matter; a document without any text is refused.
pub fn markdown_document(stem: Option<&str>, raw: &str) -> (r: Result<
    (String, Vec<EpubSection>),
    IngestError,
>)
    ensures
        md_sections(markdown_events(after_front_matter(raw@))).len() == 0 ==> (r matches Err(
            IngestError::ParseFailed(m),
        ) && m@ == "empty document"@),
        md_sections(markdown_events(after_front_matter(raw@))).len() > 0 ==> (r matches Ok(d)
            && d.0@ == stem_title(
            match stem {
                Some(s) => Some(s@),
                None => None,
            },
        ) && section_models(d.1@) == md_sections(markdown_events(after_front_matter(raw@)))),
{
    let title = title_from_stem(stem);
    let content = strip_front_matter(raw);
    let sections = parse_markdown_sections(content);
    if sections.len() == 0 {
        return Err(IngestError::ParseFailed(String::from_str("empty document")));
    }
    Ok((title, sections))
}

// ─── Reading EPUB and PDF bytes ─────────────────────────────────────────────

/// The `title` metadata of the EPUB file with these bytes, as the `epub`
/// crate reads it.
pub uninterp spec fn epub_title_of(bytes: Seq<u8>) -> Option<Seq<char>>;

/// The HTML of the spine items of the EPUB file with these bytes, in reading
/// order, `None` for an item that cannot be read as text, as the `epub` crate
/// reads them; `None` when the bytes do not open as an EPUB.
pub uninterp spec fn epub_spine_of(bytes: Seq<u8>) -> Option<Seq<Option<Seq<char>>>>;

/// The bytes of `META-INF/container.xml` in the zip archive with these
/// bytes, as the `epub` crate's archive reads them; `None` when the archive
/// does not open or has no such entry.
pub uninterp spec fn epub_container_of(bytes: Seq<u8>) -> Option<Seq<u8>>;

/// Opens the bytes with `epub::archive::EpubArchive::from_reader` and reads
/// the container with `get_container_file`: the first two steps of
/// `EpubDoc::from_reader`. The contract names the result, which depends on
/// the bytes alone; the error text is the crate's and is left unsaid.
#[verifier::external_body]
fn read_epub_container(bytes: &[u8]) -> (r: Result<Vec<u8>, String>)
    ensures
        r is Ok <==> epub_container_of(bytes@) is Some,
        r matches Ok(c) ==> c@ == epub_container_of(bytes@)->0,
{
    let cursor = std::io::Cursor::new(bytes.to_vec());
    let mut archive = epub::archive::EpubArchive::from_reader(cursor).map_err(|e| e.to_string())?;
    archive.get_container_file().map_err(|e| e.to_string())
}

/// XML whitespace: space, tab, carriage return, line feed.
pub open spec fn is_xml_space(b: u8) -> bool {
    b == 0x20u8 || b == 0x09u8 || b == 0x0Du8 || b == 0x0Au8
}

/// The first position at or after `i` that is not XML whitespace.
pub open spec fn skip_xml_space(c: Seq<u8>, i: int) -> int
    decreases c.len() - i,
{
    if 0 <= i < c.len() && is_xml_space(c[i]) {
        skip_xml_space(c, i + 1)
    } else {
        i
    }
}

/// The attribute name `full-path`, as bytes.
pub open spec fn full_path_name() -> Seq<u8> {
    seq![0x66u8, 0x75u8, 0x6Cu8, 0x6Cu8, 0x2Du8, 0x70u8, 0x61u8, 0x74u8, 0x68u8]
}

/// Where the value of a `full-path` attribute written at `i` begins: after
/// the name, optional whitespace, `=`, optional whitespace and a quote.
pub open spec fn full_path_value_at(c: Seq<u8>, i: int) -> Option<int> {
    if 0 <= i && i + 9 <= c.len() && c.subrange(i, i + 9) == full_path_name() {
        let j = skip_xml_space(c, i + 9);
        if j < c.len() && c[j] == 0x3Du8 {
            let k = skip_xml_space(c, j + 1);
            if k < c.len() && (c[k] == 0x22u8 || c[k] == 0x27u8) {
                Some(k + 1)
            } else {
                None
            }
        } else {
            None
        }
    } else {
        None
    }
}

/// A byte that begins a relative path: an ASCII letter or digit, `.`, `_`
/// or `-`.
pub open spec fn relative_path_start(b: u8) -> bool {
    (0x30u8 <= b <= 0x39u8) || (0x41u8 <= b <= 0x5Au8) || (0x61u8 <= b <= 0x7Au8) || b == 0x2Eu8
        || b == 0x5Fu8 || b == 0x2Du8
}

/// The container names its root file by a relative path: it holds no zero
/// byte, and every `full-path` attribute written in it has a value that
/// begins with a byte of a relative path.
pub open spec fn container_root_relative(c: Seq<u8>) -> bool {
    &&& forall|i: int| 0 <= i < c.len() ==> #[trigger] c[i] != 0u8
    &&& forall|i: int|
        0 <= i < c.len() ==> match #[trigger] full_path_value_at(c, i) {
            Some(v) => v < c.len() && relative_path_start(c[v]),
            None => true,
        }
}

/// The `epub` crate can open these bytes without failing on the root file's
/// path: the archive or its container does not read (the crate reports that
/// as an error), or the container names its root file by a relative path.
pub open spec fn epub_root_ok(bytes: Seq<u8>) -> bool {
    match epub_container_of(bytes) {
        Some(c) => container_root_relative(c),
        None => true,
    }
}

fn skip_xml_space_at(c: &Vec<u8>, i: usize) -> (r: usize)
    requires
        i <= c.len(),
    ensures
        r as int == skip_xml_space(c@, i as int),
        i <= r <= c.len(),
{
    let mut j = i;
    while j < c.len() && (c[j] == 0x20u8 || c[j] == 0x09u8 || c[j] == 0x0Du8 || c[j] == 0x0Au8)
        invariant
            i <= j <= c.len(),
            skip_xml_space(c@, i as int) == skip_xml_space(c@, j as int),
        decreases c.len() - j,
    {
        j = j + 1;
    }
    j
}

fn full_path_value_from(c: &Vec<u8>, i: usize) -> (r: Option<usize>)
    requires
        i < c.len(),
    ensures
        match r {
            Some(v) => full_path_value_at(c@, i as int) == Some(v as int),
            None => full_path_value_at(c@, i as int) is None,
        },
{
    let name: [u8; 9] = [0x66u8, 0x75u8, 0x6Cu8, 0x6Cu8, 0x2Du8, 0x70u8, 0x61u8, 0x74u8, 0x68u8];
    if c.len() - i < 9 {
        return None;
    }
    let mut k: usize = 0;
    while k < 9
        invariant
            k <= 9,
            i + 9 <= c.len(),
            name@ == full_path_name(),
            c@.subrange(i as int, i + k) == full_path_name().subrange(0, k as int),
        decreases 9 - k,
    {
        if c[i + k] != name[k] {
            assert(c@.subrange(i as int, i + 9)[k as int] != full_path_name()[k as int]);
            return None;
        }
        assert(c@.subrange(i as int, i + k + 1) =~= c@.subrange(i as int, i + k as int).push(c@[i + k]));
        assert(full_path_name().subrange(0, k + 1) =~= full_path_name().subrange(0, k as int).push(
            full_path_name()[k as int],
        ));
        k = k + 1;
    }
    assert(full_path_name().subrange(0, 9) =~= full_path_name());
    let j = skip_xml_space_at(c, i + 9);
    if j >= c.len() || c[j] != 0x3Du8 {
        return None;
    }
    let q = skip_xml_space_at(c, j + 1);
    if q < c.len() && (c[q] == 0x22u8 || c[q] == 0x27u8) {
        Some(q + 1)
    } else {
        None
    }
}

/// Whether the container names its root file by a relative path (see
/// [`container_root_relative`]).
pub fn container_root_is_relative(c: &Vec<u8>) -> (r: bool)
    ensures
        r == container_root_relative(c@),
{
    let mut i: usize = 0;
    while i < c.len()
        invariant
            i <= c.len(),
            forall|j: int| 0 <= j < i ==> #[trigger] c@[j] != 0u8,
            forall|j: int|
                0 <= j < i ==> match #[trigger] full_path_value_at(c@, j) {
                    Some(v) => v < c.len() && relative_path_start(c@[v]),
                    None => true,
                },
        decreases c.len() - i,
    {
        if c[i] == 0u8 {
            return false;
        }
        match full_path_value_from(c, i) {
            Some(v) => {
                if v >= c.len() {
                    return false;
                }
                let b = c[v];
                if !((0x30u8 <= b && b <= 0x39u8) || (0x41u8 <= b && b <= 0x5Au8) || (0x61u8 <= b
                    && b <= 0x7Au8) || b == 0x2Eu8 || b == 0x5Fu8 || b == 0x2Du8) {
                    return false;
                }
            },
            None => {},
        }
        i = i + 1;
    }
    true
}

/// Whether the `epub` crate can open these bytes without failing on the
/// root file's path (see [`epub_root_ok`]).
pub fn epub_root_checked(bytes: &[u8]) -> (r: bool)
    ensures
        r == epub_root_ok(bytes@),
{
    match read_epub_container(bytes) {
        Err(_) => true,
        Ok(c) => container_root_is_relative(&c),
    }
}

/// Opens EPUB bytes with `epub::doc::EpubDoc::from_reader`, then takes the
/// `title` metadata (`mdata`) and walks the whole spine with
/// `get_current_str` / `go_next`, one entry per item. The contract names both
/// results, which depend on the bytes alone; the error text is the crate's and
/// is left unsaid. `from_reader` panics when the container's root file path
/// has no parent (an empty or root path), so `requires` admits only bytes
/// whose container does not read (the crate then returns an error before
/// that point) or names a relative path: the crate takes the path from a
/// `full-path` attribute, and with no zero byte in the container every
/// decoding the XML reader applies keeps such an attribute's ASCII text as
/// written, or leaves no ASCII text at all.
#[verifier::external_body]
pub(crate) fn read_epub(bytes: &[u8]) -> (r: Result<(Option<String>, Vec<Option<String>>), String>)
    requires
        epub_root_ok(bytes@),
    ensures
        r is Ok <==> epub_spine_of(bytes@) is Some,
        r matches Ok((t, items)) ==> items.deep_view() == epub_spine_of(bytes@)->0
            && t.deep_view() == epub_title_of(bytes@),
{
    let cursor = std::io::Cursor::new(bytes.to_vec());
    let mut doc = epub::doc::EpubDoc::from_reader(cursor).map_err(|e| e.to_string())?;
    let title = doc.mdata("title").map(|m| m.value.clone());
    let mut items = Vec::new();
    loop {
        items.push(doc.get_current_str().map(|(content, _mime)| content));
        if !doc.go_next() {
            break;
        }
    }
    Ok((title, items))
}

/// The items before the first one that cannot be read: what section
/// assembly walks.
pub open spec fn readable_prefix(items: Seq<Option<Seq<char>>>) -> Seq<Seq<char>>
    decreases items.len(),
{
    if items.len() == 0 {
        Seq::empty()
    } else {
        match items[0] {
            Some(t) => seq![t] + readable_prefix(items.drop_first()),
            None => Seq::empty(),
        }
    }
}

/// Every item that can be read, in order: what the parser canary joins.
pub open spec fn readable_items(items: Seq<Option<Seq<char>>>) -> Seq<Seq<char>>
    decreases items.len(),
{
    if items.len() == 0 {
        Seq::empty()
    } else {
        match items.last() {
            Some(t) => readable_items(items.drop_last()).push(t),
            None => readable_items(items.drop_last()),
        }
    }
}

/// The items before the first one that cannot be read.
pub fn take_readable_prefix(items: &Vec<Option<String>>) -> (r: Vec<String>)
    ensures
        string_views(r@) == readable_prefix(items.deep_view()),
{
    let ghost dv = items.deep_view();
    let mut r: Vec<String> = Vec::new();
    let mut i: usize = 0;
    assert(dv.skip(0) =~= dv);
    assert(string_views(r@) =~= Seq::<Seq<char>>::empty());
    while i < items.len()
        invariant
            i <= items.len(),
            dv == items.deep_view(),
            readable_prefix(dv) == string_views(r@) + readable_prefix(dv.skip(i as int)),
        decreases items.len() - i,
    {
        match &items[i] {
            Some(t) => {
                let ghost before = string_views(r@);
                assert(dv[i as int] == Some(t@));
                assert(dv.skip(i as int).drop_first() =~= dv.skip(i + 1));
                r.push(t.clone());
                assert(string_views(r@) =~= before.push(t@));
                assert(before + (seq![t@] + readable_prefix(dv.skip(i + 1))) =~= before.push(t@)
                    + readable_prefix(dv.skip(i + 1)));
                i = i + 1;
            },
            None => {
                assert(dv[i as int] is None);
                assert(string_views(r@) + Seq::<Seq<char>>::empty() =~= string_views(r@));
                return r;
            },
        }
    }
    assert(dv.skip(i as int) =~= Seq::<Option<Seq<char>>>::empty());
    assert(string_views(r@) + Seq::<Seq<char>>::empty() =~= string_views(r@));
    r
}

/// Every item that can be read, in order.
pub fn take_readable_items(items: &Vec<Option<String>>) -> (r: Vec<String>)
    ensures
        string_views(r@) == readable_items(items.deep_view()),
{
    let ghost dv = items.deep_view();
    let mut r: Vec<String> = Vec::new();
    let mut i: usize = 0;
    assert(dv.take(0) =~= Seq::<Option<Seq<char>>>::empty());
    assert(string_views(r@) =~= Seq::<Seq<char>>::empty());
    while i < items.len()
        invariant
            i <= items.len(),
            dv == items.deep_view(),
            string_views(r@) == readable_items(dv.take(i as int)),
        decreases items.len() - i,
    {
        assert(dv.take(i + 1).drop_last() =~= dv.take(i as int));
        assert(dv.take(i + 1).last() == dv[i as int]);
        match &items[i] {
            Some(t) => {
                let ghost before = string_views(r@);
                assert(dv[i as int] == Some(t@));
                r.push(t.clone());
                assert(string_views(r@) =~= before.push(t@));
            },
            None => {
                assert(dv[i as int] is None);
            },
        }
        i = i + 1;
    }
    assert(dv.take(items.len() as int) =~= dv);
    r
}

/// The error for EPUB bytes that do not open, with the reader's message.
pub fn epub_open_error(cause: &str) -> (r: IngestError)
    ensures
        r matches IngestError::ParseFailed(m) && m@ == "failed to open epub: "@ + cause@,
{
    let mut m: Vec<char> = Vec::new();
    push_str_chars(&mut m, "failed to open epub: ");
    push_str_chars(&mut m, cause);
    IngestError::ParseFailed(from_chars(&m))
}

/// Why bytes whose container does not name its root file by a relative path
/// are refused.
pub open spec fn unsupported_root_path() -> Seq<char> {
    "unsupported root file path in META-INF/container.xml"@
}

/// The title and sections of the EPUB file with the given stem and bytes:
/// bytes whose container does not name its root file by a relative path are
/// refused (the reader cannot open them safely); bytes that do not open are
/// refused with the reader's message; otherwise
/// the sections are those of its spine up to the first item that cannot be
/// read, the title its `title` metadata (else
/// the stem, else `unknown`), and a book without any text is refused.
pub fn epub_document(stem: Option<&str>, bytes: &[u8]) -> (r: Result<
    (String, Vec<EpubSection>),
    IngestError,
>)
    ensures
        r matches Err(e) ==> e is ParseFailed,
        !epub_root_ok(bytes@) ==> (r matches Err(IngestError::ParseFailed(m)) && m@
            == "failed to open epub: "@ + unsupported_root_path()),
        epub_root_ok(bytes@) && epub_spine_of(bytes@) is None ==> (r matches Err(
            IngestError::ParseFailed(m),
        ) && "failed to open epub: "@.is_prefix_of(m@)),
        epub_root_ok(bytes@) ==> (epub_spine_of(bytes@) matches Some(items) ==> {
            &&& epub_fold(readable_prefix(items)).sections.len() == 0 ==> (r matches Err(
                IngestError::ParseFailed(m),
            ) && m@ == "empty document"@)
            &&& epub_fold(readable_prefix(items)).sections.len() > 0 ==> (r matches Ok(d) && d.0@ == match epub_title_of(
                bytes@,
            ) {
                Some(t) => t,
                None => stem_title(
                    match stem {
                        Some(s) => Some(s@),
                        None => None,
                    },
                ),
            } && section_models(d.1@) == epub_fold(readable_prefix(items)).sections)
        }),
{
    if !epub_root_checked(bytes) {
        let cause = "unsupported root file path in META-INF/container.xml";
        proof {
            reveal_strlit("unsupported root file path in META-INF/container.xml");
        }
        return Err(epub_open_error(cause));
    }
    match read_epub(bytes) {
        Err(cause) => {
            let e = epub_open_error(cause.as_str());
            proof {
                assert(("failed to open epub: "@ + cause@).subrange(0, "failed to open epub: "@.len() as int)
                    =~= "failed to open epub: "@);
            }
            Err(e)
        },
        Ok((title, items)) => {
            let t = epub_title(title, stem);
            let readable = take_readable_prefix(&items);
            let sections = epub_sections(&readable)?;
            Ok((t, sections))
        },
    }
}

/// How reading PDF bytes failed: the document did not load, or a page's
/// text could not be extracted; each with the library's message.
#[derive(Debug)]
pub enum PdfReadError {
    Load(String),
    PageText(String),
}

/// Loads PDF bytes with pdfium and reads the text of every page in order
/// (`page.text()` then `all()`), each page's outcome on its own; a document
/// that does not load gives its error message. The library is bound as
/// `Pdfium::default` binds it, without its panic: the one in the working
/// directory (`bind_to_library` at `pdfium_platform_library_name_at_path("./")`),
/// else the system's (`bind_to_system_library`); then `load_pdf_from_byte_slice`.
/// The result depends on the pdfium library found, so nothing is said of it.
#[verifier::external_body]
pub(crate) fn pdf_page_texts(bytes: &[u8]) -> (r: Result<Vec<Result<String, String>>, String>) {
    let local = Pdfium::bind_to_library(Pdfium::pdfium_platform_library_name_at_path("./"));
    let bindings = match local {
        Ok(b) => b,
        Err(_) => Pdfium::bind_to_system_library().map_err(|e| e.to_string())?,
    };
    let pdfium = Pdfium::new(bindings);
    let document = pdfium.load_pdf_from_byte_slice(bytes, None).map_err(|e| e.to_string())?;
    let mut pages = Vec::new();
    for page in document.pages().iter() {
        pages.push(page.text().map(|t| t.all()).map_err(|e| e.to_string()));
    }
    Ok(pages)
}

/// The page texts when every page read, else the message of the first page
/// that did not.
pub fn page_texts_or_error(pages: &Vec<Result<String, String>>) -> (r: Result<Vec<String>, String>)
    ensures
        r is Ok <==> forall|k: int| 0 <= k < pages.len() ==> (#[trigger] pages[k]) is Ok,
        r matches Ok(ts) ==> ts.len() == pages.len() && forall|k: int|
            0 <= k < ts.len() ==> (pages[k] matches Ok(t) && (#[trigger] ts[k])@ == t@),
        r matches Err(m) ==> exists|k: int|
            0 <= k < pages.len() && (#[trigger] pages[k] matches Err(e) && m@ == e@) && forall|j: int|
                0 <= j < k ==> pages[j] is Ok,
{
    let mut ts: Vec<String> = Vec::new();
    let mut i: usize = 0;
    while i < pages.len()
        invariant
            i <= pages.len(),
            ts.len() == i,
            forall|j: int| 0 <= j < i ==> (#[trigger] pages[j]) is Ok,
            forall|j: int| 0 <= j < i ==> (pages[j] matches Ok(t) && (#[trigger] ts[j])@ == t@),
        decreases pages.len() - i,
    {
        match &pages[i] {
            Ok(t) => {
                ts.push(t.clone());
            },
            Err(e) => {
                let m = e.clone();
                assert(pages[i as int] matches Err(e) && m@ == e@);
                return Err(m);
            },
        }
        i = i + 1;
    }
    Ok(ts)
}

/// The error for a PDF that did not read.
pub fn pdf_read_error(e: PdfReadError) -> (r: IngestError)
    ensures
        r matches IngestError::ParseFailed(m) && match e {
            PdfReadError::Load(c) => m@ == "failed to load pdf: "@ + c@,
            PdfReadError::PageText(c) => m@ == "failed to extract text: "@ + c@,
        },
{
    let mut m: Vec<char> = Vec::new();
    match e {
        PdfReadError::Load(c) => {
            push_str_chars(&mut m, "failed to load pdf: ");
            push_str_chars(&mut m, c.as_str());
        },
        PdfReadError::PageText(c) => {
            push_str_chars(&mut m, "failed to extract text: ");
            push_str_chars(&mut m, c.as_str());
        },
    }
    IngestError::ParseFailed(from_chars(&m))
}

/// The PDF document with the given stem and bytes. Whatever pdfium reads:
/// a failure is a parse failure; a document is titled by the stem (else
/// `unknown`), has at least one page, and each page holds non-blank text and
/// is one of the pages `pdf_document` keeps of some page texts.
pub fn pdf_document_from_bytes(stem: Option<&str>, bytes: &[u8]) -> (r: Result<
    ExtractedDocument,
    IngestError,
>)
    ensures
        r matches Err(e) ==> e is ParseFailed,
        r matches Ok(d) ==> {
            &&& d.title@ == stem_title(
                match stem {
                    Some(s) => Some(s@),
                    None => None,
                },
            )
            &&& d.pages.len() > 0
            &&& exists|texts: Seq<Seq<char>>| page_models(d.pages@) == #[trigger] pages_of(texts)
            &&& forall|k: int| 0 <= k < d.pages.len() ==> trim((#[trigger] d.pages[k]).text@).len() > 0
        },
{
    let title = title_from_stem(stem);
    let pages = match pdf_page_texts(bytes) {
        Err(m) => {
            return Err(pdf_read_error(PdfReadError::Load(m)));
        },
        Ok(pages) => pages,
    };
    match page_texts_or_error(&pages) {
        Err(m) => Err(pdf_read_error(PdfReadError::PageText(m))),
        Ok(texts) => {
            let r = pdf_document(title, &texts);
            proof {
                if r is Ok {
                    let d = r->Ok_0;
                    lemma_pages_of_text(string_views(texts@));
                    assert forall|k: int| 0 <= k < d.pages.len() implies trim(
                        (#[trigger] d.pages[k]).text@,
                    ).len() > 0 by {
                        assert(page_models(d.pages@)[k] == d.pages[k]@);
                    }
                }
            }
            r
        },
    }
}

proof fn lemma_pages_of_text(texts: Seq<Seq<char>>)
    ensures
        forall|k: int| 0 <= k < pages_of(texts).len() ==> trim((#[trigger] pages_of(texts)[k]).text).len() > 0,
    decreases texts.len(),
{
    if texts.len() > 0 {
        lemma_pages_of_text(texts.drop_last());
        let prev = pages_of(texts.drop_last());
        let next = pages_of(texts);
        assert forall|k: int| 0 <= k < next.len() implies trim((#[trigger] next[k]).text).len() > 0 by {
            if k < prev.len() {
                assert(next[k] == prev[k]);
            }
        }
    }
}

// ─── Laws ───────────────────────────────────────────────────────────────────

/// No character of `s` is an angle bracket.
pub open spec fn no_angle(s: Seq<char>) -> bool {
    forall|i: int| 0 <= i < s.len() ==> #[trigger] s[i] != '<' && s[i] != '>'
}

proof fn lemma_tag_scan_no_angle(s: Seq<char>)
    ensures
        no_angle(tag_scan(s).0),
    decreases s.len(),
{
    if s.len() > 0 {
        lemma_tag_scan_no_angle(s.drop_last());
    }
}

proof fn lemma_word_scan_no_angle(s: Seq<char>)
    requires
        no_angle(s),
    ensures
        forall|k: int| 0 <= k < word_scan(s).0.len() ==> no_angle(#[trigger] word_scan(s).0[k]),
        no_angle(word_scan(s).1),
    decreases s.len(),
{
    if s.len() > 0 {
        let t = s.drop_last();
        assert forall|i: int| 0 <= i < t.len() implies #[trigger] t[i] != '<' && t[i] != '>' by {
            assert(t[i] == s[i]);
        }
        lemma_word_scan_no_angle(t);
        let (done, cur) = word_scan(t);
        assert(s.last() == s[s.len() - 1]);
        let (d2, c2) = word_scan(s);
        assert forall|k: int| 0 <= k < d2.len() implies no_angle(#[trigger] d2[k]) by {
            if k < done.len() {
                assert(d2[k] == done[k]);
            }
        }
    }
}

proof fn lemma_join_no_angle(ws: Seq<Seq<char>>)
    requires
        forall|k: int| 0 <= k < ws.len() ==> no_angle(#[trigger] ws[k]),
    ensures
        no_angle(join(ws, seq![' '])),
    decreases ws.len(),
{
    if ws.len() > 1 {
        let prev = ws.drop_last();
        assert forall|k: int| 0 <= k < prev.len() implies no_angle(#[trigger] prev[k]) by {
            assert(prev[k] == ws[k]);
        }
        lemma_join_no_angle(prev);
        let j = join(prev, seq![' ']);
        let r = join(ws, seq![' ']);
        assert(no_angle(ws.last()));
        assert forall|i: int| 0 <= i < r.len() implies #[trigger] r[i] != '<' && r[i] != '>' by {
            if i < j.len() {
                assert(r[i] == j[i]);
            } else if i == j.len() {
                assert(r[i] == ' ');
            } else {
                assert(r[i] == ws.last()[i - j.len() - 1]);
            }
        }
    } else if ws.len() == 1 {
        assert(no_angle(ws[0]));
    }
}

/// Tag stripping never lets an angle bracket through: the plain text of any
/// HTML holds neither `<` nor `>`, and its whitespace is single spaces
/// between words.
pub proof fn law_stripped_text_has_no_tags(html: Seq<char>)
    ensures
        no_angle(strip_tags(html)),
        well_spaced(strip_tags(html)),
{
    let kept = tag_scan(html).0;
    law_normalized_well_spaced(kept);
    lemma_tag_scan_no_angle(html);
    lemma_word_scan_no_angle(kept);
    let (done, cur) = word_scan(kept);
    let ws = words(kept);
    assert forall|k: int| 0 <= k < ws.len() implies no_angle(#[trigger] ws[k]) by {
        if k < done.len() {
            assert(ws[k] == done[k]);
        }
    }
    lemma_join_no_angle(ws);
}

proof fn lemma_tag_scan_plain(s: Seq<char>)
    requires
        no_angle(s),
    ensures
        tag_scan(s) == (s, false),
    decreases s.len(),
{
    if s.len() > 0 {
        let t = s.drop_last();
        assert forall|i: int| 0 <= i < t.len() implies #[trigger] t[i] != '<' && t[i] != '>' by {
            assert(t[i] == s[i]);
        }
        lemma_tag_scan_plain(t);
        assert(s.last() == s[s.len() - 1]);
        assert(t.push(s.last()) =~= s);
    }
}

/// Stripping tags twice is stripping them once: the plain text of plain text
/// is itself.
pub proof fn law_strip_tags_idempotent(html: Seq<char>)
    ensures
        strip_tags(strip_tags(html)) == strip_tags(html),
{
    let r = strip_tags(html);
    law_stripped_text_has_no_tags(html);
    lemma_tag_scan_plain(r);
    let kept = tag_scan(html).0;
    lemma_words_clean(kept);
    law_words_of_join(words(kept));
}

/// Text without angle brackets loses nothing but extra whitespace: its
/// plain text is its words joined by single spaces.
pub proof fn law_strip_plain_text(s: Seq<char>)
    requires
        no_angle(s),
    ensures
        strip_tags(s) == normalize_ws(s),
{
    lemma_tag_scan_plain(s);
}

proof fn lemma_flush_nonempty(
    sections: Seq<SectionModel>,
    chapter: Option<Seq<char>>,
    section: Option<Seq<char>>,
    body: Seq<char>,
)
    requires
        forall|k: int|
            0 <= k < sections.len() ==> (#[trigger] sections[k]).text.len() > 0 && well_spaced(
                sections[k].text,
            ),
    ensures
        forall|k: int|
            0 <= k < flush_model(sections, chapter, section, body).len() ==> (
            #[trigger] flush_model(sections, chapter, section, body)[k]).text.len() > 0
                && well_spaced(flush_model(sections, chapter, section, body)[k].text),
{
    let r = flush_model(sections, chapter, section, body);
    law_normalized_well_spaced(body);
    assert forall|k: int| 0 <= k < r.len() implies (#[trigger] r[k]).text.len() > 0 && well_spaced(
        r[k].text,
    ) by {
        if k < sections.len() {
            assert(r[k] == sections[k]);
        }
    }
}

proof fn lemma_md_fold_nonempty(events: Seq<MdEvent>)
    ensures
        forall|k: int|
            0 <= k < md_fold(events).sections.len() ==> (
            #[trigger] md_fold(events).sections[k]).text.len() > 0 && well_spaced(
                md_fold(events).sections[k].text,
            ),
    decreases events.len(),
{
    if events.len() > 0 {
        let prev = md_fold(events.drop_last());
        lemma_md_fold_nonempty(events.drop_last());
        lemma_flush_nonempty(prev.sections, prev.chapter, prev.section, prev.body);
        let next = md_fold(events);
        assert forall|k: int| 0 <= k < next.sections.len() implies (
        #[trigger] next.sections[k]).text.len() > 0 && well_spaced(next.sections[k].text) by {
            if k < prev.sections.len() {
                assert(next.sections[k] == prev.sections[k] || next.sections[k]
                    == flush_model(prev.sections, prev.chapter, prev.section, prev.body)[k]);
            }
        }
    }
}

/// Every Markdown section has text, whitespace-normalized: blank bodies are
/// never emitted.
pub proof fn law_markdown_sections_have_text(events: Seq<MdEvent>)
    ensures
        forall|k: int|
            0 <= k < md_sections(events).len() ==> (#[trigger] md_sections(events)[k]).text.len()
                > 0 && well_spaced(md_sections(events)[k].text),
{
    lemma_md_fold_nonempty(events);
    let st = md_fold(events);
    lemma_flush_nonempty(st.sections, st.chapter, st.section, st.body);
}

/// Every EPUB section has text free of tags and whitespace-normalized:
/// blank spine items are never emitted.
pub proof fn law_epub_sections_have_text(items: Seq<Seq<char>>)
    ensures
        forall|k: int|
            0 <= k < epub_fold(items).sections.len() ==> (
            #[trigger] epub_fold(items).sections[k]).text.len() > 0 && no_angle(
                epub_fold(items).sections[k].text,
            ) && well_spaced(epub_fold(items).sections[k].text),
    decreases items.len(),
{
    if items.len() > 0 {
        law_epub_sections_have_text(items.drop_last());
        let prev = epub_fold(items.drop_last());
        let next = epub_fold(items);
        let text = strip_tags(items.last());
        lemma_trim_props(text);
        law_stripped_text_has_no_tags(items.last());
        assert forall|k: int| 0 <= k < next.sections.len() implies (
        #[trigger] next.sections[k]).text.len() > 0 && no_angle(next.sections[k].text)
            && well_spaced(next.sections[k].text) by {
            if k < prev.sections.len() {
                assert(next.sections[k] == prev.sections[k]);
            }
        }
    }
}

// ─── Heading attribution ────────────────────────────────────────────────────

/// The text and code payload of an event (empty for the others).
pub open spec fn payload(ev: MdEvent) -> Seq<char> {
    match ev {
        MdEvent::Text(t) => t@,
        MdEvent::Code(t) => t@,
        _ => Seq::empty(),
    }
}

/// The text and code payloads of `evs[i..j]`, in order.
pub open spec fn payload_between(evs: Seq<MdEvent>, i: int, j: int) -> Seq<char>
    decreases j - i,
{
    if j <= i {
        Seq::empty()
    } else {
        payload_between(evs, i, j - 1) + payload(evs[j - 1])
    }
}

/// Where the heading still open after the events starts: the last heading
/// start that no heading end follows.
pub open spec fn open_heading(evs: Seq<MdEvent>) -> Option<int>
    decreases evs.len(),
{
    if evs.len() == 0 {
        None
    } else {
        match evs.last() {
            MdEvent::HeadingStart(_) => Some(evs.len() - 1),
            MdEvent::HeadingEnd => None,
            _ => open_heading(evs.drop_last()),
        }
    }
}

/// The heading that the last event closes, as its level and trimmed text.
pub open spec fn closed_heading(evs: Seq<MdEvent>) -> Option<(u8, Seq<char>)> {
    if evs.len() > 0 && evs.last() is HeadingEnd {
        match open_heading(evs.drop_last()) {
            Some(i) => match evs[i] {
                MdEvent::HeadingStart(level) => Some(
                    (level, trim(payload_between(evs, i + 1, evs.len() - 1))),
                ),
                _ => None,
            },
            None => None,
        }
    } else {
        None
    }
}

/// The chapter in force after the events: the trimmed text of the last
/// level-1 heading they complete, if any.
pub open spec fn chapter_in_force(evs: Seq<MdEvent>) -> Option<Seq<char>>
    decreases evs.len(),
{
    if evs.len() == 0 {
        None
    } else {
        match closed_heading(evs) {
            Some((level, text)) if level == 1 => Some(text),
            _ => chapter_in_force(evs.drop_last()),
        }
    }
}

/// The section in force after the events: the trimmed text of the last
/// level-2 heading they complete after the last level-1 heading, if any.
pub open spec fn section_in_force(evs: Seq<MdEvent>) -> Option<Seq<char>>
    decreases evs.len(),
{
    if evs.len() == 0 {
        None
    } else {
        match closed_heading(evs) {
            Some((level, text)) if level == 1 => None,
            Some((level, text)) if level == 2 => Some(text),
            _ => section_in_force(evs.drop_last()),
        }
    }
}

/// Section `k` was emitted at position `p` of the stream, at a heading start
/// (which ends the body read before it) or at the end, and carries the
/// headings in force there.
pub open spec fn emitted_at(sections: Seq<SectionModel>, evs: Seq<MdEvent>, k: int, p: int) -> bool {
    &&& 0 <= p <= evs.len()
    &&& p == evs.len() || evs[p] is HeadingStart
    &&& sections[k].chapter == chapter_in_force(evs.take(p))
    &&& sections[k].section == section_in_force(evs.take(p))
}

/// The sections were emitted at the positions `ps`, in stream order.
pub open spec fn emitted_in_order(sections: Seq<SectionModel>, evs: Seq<MdEvent>, ps: Seq<int>) -> bool {
    &&& ps.len() == sections.len()
    &&& forall|k: int| 0 <= k < ps.len() ==> #[trigger] emitted_at(sections, evs, k, ps[k])
    &&& forall|i: int, j: int| 0 <= i < j < ps.len() ==> #[trigger] ps[i] < #[trigger] ps[j]
}

/// The last heading start before position `p` (`-1` when there is none).
pub open spec fn last_start_before(evs: Seq<MdEvent>, p: int) -> int
    decreases p,
{
    if p <= 0 {
        -1
    } else if evs[p - 1] is HeadingStart {
        p - 1
    } else {
        last_start_before(evs, p - 1)
    }
}

/// `chapter` and `section` were in force at every point where the body that
/// ends at `p` was read: after the last heading start before `p`, up to
/// `p`, outside any open heading.
pub open spec fn read_under(
    evs: Seq<MdEvent>,
    p: int,
    chapter: Option<Seq<char>>,
    section: Option<Seq<char>>,
) -> bool {
    forall|r: int|
        last_start_before(evs, p) < r <= p && open_heading(#[trigger] evs.take(r)) is None
            ==> chapter_in_force(evs.take(r)) == chapter && section_in_force(evs.take(r)) == section
}

/// What section assembly keeps true: the headings it holds are those in
/// force, and it is reading a heading exactly when one is open, with that
/// heading's level and text so far.
pub open spec fn md_state_inv(st: MdState, evs: Seq<MdEvent>) -> bool {
    &&& st.chapter == chapter_in_force(evs)
    &&& st.section == section_in_force(evs)
    &&& st.in_heading <==> open_heading(evs) is Some
    &&& open_heading(evs) is None ==> st.pending is None
    &&& open_heading(evs) matches Some(i) ==> (0 <= i < evs.len() && (evs[i] matches MdEvent::HeadingStart(
        level,
    ) && st.pending == Some(level)) && st.heading == payload_between(evs, i + 1, evs.len() as int))
}

proof fn lemma_payload_between_extend(evs: Seq<MdEvent>, ev: MdEvent, i: int)
    requires
        0 <= i <= evs.len(),
    ensures
        payload_between(evs.push(ev), i, evs.len() as int) == payload_between(evs, i, evs.len() as int),
    decreases evs.len() - i,
{
    if i < evs.len() {
        lemma_payload_between_extend(evs, ev, i + 1);
        lemma_payload_between_prefix(evs.push(ev), evs, i, evs.len() as int);
    }
}

proof fn lemma_payload_between_prefix(a: Seq<MdEvent>, b: Seq<MdEvent>, i: int, j: int)
    requires
        0 <= i,
        j <= b.len(),
        j <= a.len(),
        forall|x: int| 0 <= x < j ==> a[x] == b[x],
    ensures
        payload_between(a, i, j) == payload_between(b, i, j),
    decreases j - i,
{
    if j > i {
        lemma_payload_between_prefix(a, b, i, j - 1);
    }
}

proof fn lemma_emitted_extend(
    sections: Seq<SectionModel>,
    evs: Seq<MdEvent>,
    ev: MdEvent,
    ps: Seq<int>,
)
    requires
        emitted_in_order(sections, evs, ps),
        forall|k: int| 0 <= k < ps.len() ==> #[trigger] ps[k] < evs.len(),
    ensures
        emitted_in_order(sections, evs.push(ev), ps),
{
    assert forall|k: int| 0 <= k < ps.len() implies #[trigger] emitted_at(
        sections,
        evs.push(ev),
        k,
        ps[k],
    ) by {
        assert(emitted_at(sections, evs, k, ps[k]));
        assert(evs.push(ev).take(ps[k]) =~= evs.take(ps[k]));
        assert(evs.push(ev)[ps[k]] == evs[ps[k]]);
    }
}

proof fn lemma_md_fold_inv(evs: Seq<MdEvent>) -> (ps: Seq<int>)
    ensures
        md_state_inv(md_fold(evs), evs),
        emitted_in_order(md_fold(evs).sections, evs, ps),
        forall|k: int| 0 <= k < ps.len() ==> #[trigger] ps[k] < evs.len(),
    decreases evs.len(),
{
    if evs.len() == 0 {
        Seq::empty()
    } else {
        let prev = evs.drop_last();
        let ps0 = lemma_md_fold_inv(prev);
        let st = md_fold(prev);
        let ev = evs.last();
        let next = md_step(st, ev);
        assert(next == md_fold(evs));
        assert(prev.push(ev) =~= evs);
        let n = prev.len() as int;
        lemma_emitted_extend(st.sections, prev, ev, ps0);
        match ev {
            MdEvent::HeadingStart(level) => {
                assert(evs.take(n) =~= prev);
                let fl = flush_model(st.sections, st.chapter, st.section, st.body);
                assert(closed_heading(evs) is None);
                assert(payload_between(evs, n + 1, n + 1) =~= Seq::<char>::empty());
                if fl.len() > st.sections.len() {
                    let ps = ps0.push(n);
                    assert forall|k: int| 0 <= k < ps.len() implies #[trigger] emitted_at(
                        fl,
                        evs,
                        k,
                        ps[k],
                    ) by {
                        if k < st.sections.len() {
                            assert(fl[k] == st.sections[k]);
                            assert(ps[k] == ps0[k]);
                            assert(emitted_at(st.sections, evs, k, ps0[k]));
                        } else {
                            assert(ps[k] == n);
                        }
                    }
                    assert forall|i: int, j: int| 0 <= i < j < ps.len() implies #[trigger] ps[i]
                        < #[trigger] ps[j] by {
                        if j < ps0.len() {
                            assert(ps[i] == ps0[i] && ps[j] == ps0[j]);
                        } else {
                            assert(ps[i] == ps0[i]);
                        }
                    }
                    assert forall|k: int| 0 <= k < ps.len() implies #[trigger] ps[k] < evs.len() by {
                        if k < ps0.len() {
                            assert(ps[k] == ps0[k]);
                        }
                    }
                    ps
                } else {
                    assert(fl == st.sections);
                    ps0
                }
            },
            MdEvent::HeadingEnd => {
                assert(open_heading(evs) is None);
                match open_heading(prev) {
                    Some(i) => {
                        lemma_payload_between_prefix(evs, prev, i + 1, n);
                        assert(evs[i] == prev[i]);
                    },
                    None => {},
                }
                ps0
            },
            _ => {
                assert(closed_heading(evs) is None);
                assert(open_heading(evs) == open_heading(prev));
                match open_heading(prev) {
                    Some(i) => {
                        lemma_payload_between_prefix(evs, prev, i + 1, n);
                        assert(evs[i] == prev[i]);
                        assert(payload_between(evs, i + 1, n + 1) == payload_between(evs, i + 1, n)
                            + payload(ev));
                        if ev is SoftBreak || ev is HardBreak || ev is Other {
                            assert(payload(ev) =~= Seq::<char>::empty());
                            assert(payload_between(evs, i + 1, n) + payload(ev) =~= payload_between(
                                evs,
                                i + 1,
                                n,
                            ));
                        }
                    },
                    None => {},
                }
                ps0
            },
        }
    }
}

proof fn lemma_last_start_before(evs: Seq<MdEvent>, p: int)
    requires
        0 <= p <= evs.len(),
    ensures
        -1 <= last_start_before(evs, p) < p,
        last_start_before(evs, p) >= 0 ==> evs[last_start_before(evs, p)] is HeadingStart,
        forall|i: int| last_start_before(evs, p) < i < p ==> !(#[trigger] evs[i] is HeadingStart),
    decreases p,
{
    if p > 0 && !(evs[p - 1] is HeadingStart) {
        lemma_last_start_before(evs, p - 1);
    }
}

/// With no heading open at `r` and no heading start from `r` up to `p`, the
/// headings in force at `p` are those at `r`.
proof fn lemma_in_force_stable(evs: Seq<MdEvent>, r: int, p: int)
    requires
        0 <= r <= p <= evs.len(),
        open_heading(evs.take(r)) is None,
        forall|i: int| r <= i < p ==> !(#[trigger] evs[i] is HeadingStart),
    ensures
        open_heading(evs.take(p)) is None,
        chapter_in_force(evs.take(p)) == chapter_in_force(evs.take(r)),
        section_in_force(evs.take(p)) == section_in_force(evs.take(r)),
    decreases p - r,
{
    if p > r {
        lemma_in_force_stable(evs, r, p - 1);
        let t = evs.take(p);
        assert(t.drop_last() =~= evs.take(p - 1));
        assert(t.last() == evs[p - 1]);
        assert(!(evs[p - 1] is HeadingStart));
        assert(closed_heading(t) is None);
    }
}

/// Markdown text is attributed to the headings in force where it was read,
/// in document order: the sections of an event stream were emitted at
/// increasing positions, each at a heading start (which ends the body read
/// before it) or at the end of the stream; each carries as its chapter the
/// trimmed text of the last level-1 heading completed before that position
/// (none if there is none) and as its section that of the last level-2
/// heading completed after that level-1 heading (none if there is none);
/// and those were the headings in force at every point where its body was
/// read.
pub proof fn law_sections_under_headings(events: Seq<MdEvent>)
    ensures
        exists|ps: Seq<int>|
            #[trigger] emitted_in_order(md_sections(events), events, ps) && forall|k: int|
                0 <= k < ps.len() ==> read_under(
                    events,
                    #[trigger] ps[k],
                    md_sections(events)[k].chapter,
                    md_sections(events)[k].section,
                ),
{
    let ps0 = lemma_md_fold_inv(events);
    let st = md_fold(events);
    let r = md_sections(events);
    let n = events.len() as int;
    assert(events.take(n) =~= events);
    let ps = if r.len() > st.sections.len() {
        ps0.push(n)
    } else {
        ps0
    };
    assert(r.len() == st.sections.len() || r.len() == st.sections.len() + 1);
    assert forall|k: int| 0 <= k < ps.len() implies #[trigger] emitted_at(r, events, k, ps[k]) by {
        if k < st.sections.len() {
            assert(r[k] == st.sections[k]);
            assert(ps[k] == ps0[k]);
            assert(emitted_at(st.sections, events, k, ps0[k]));
        } else {
            assert(ps[k] == n);
        }
    }
    assert forall|i: int, j: int| 0 <= i < j < ps.len() implies #[trigger] ps[i] < #[trigger] ps[j] by {
        if j < ps0.len() {
            assert(ps[i] == ps0[i] && ps[j] == ps0[j]);
        } else {
            assert(ps[i] == ps0[i]);
            assert(ps0[i] < n);
        }
    }
    assert forall|k: int| 0 <= k < ps.len() implies read_under(
        events,
        #[trigger] ps[k],
        r[k].chapter,
        r[k].section,
    ) by {
        let p = ps[k];
        assert(emitted_at(r, events, k, p));
        lemma_last_start_before(events, p);
        assert forall|x: int|
            last_start_before(events, p) < x <= p && open_heading(#[trigger] events.take(x)) is None
                implies chapter_in_force(events.take(x)) == r[k].chapter && section_in_force(
            events.take(x),
        ) == r[k].section by {
            lemma_in_force_stable(events, x, p);
        }
    }
    assert(emitted_in_order(r, events, ps));
}

// ─── Laws of EPUB assembly ──────────────────────────────────────────────────

/// The last spine item at or before `i` that has a first `<tag>` heading
/// (`-1` when there is none).
pub open spec fn last_with(items: Seq<Seq<char>>, i: int, tag: Seq<char>) -> int
    decreases i + 1,
{
    if i < 0 {
        -1
    } else if heading_of(items[i], tag) is Some {
        i
    } else {
        last_with(items, i - 1, tag)
    }
}

/// The chapter in force at spine item `i`: the `<h1>` of the last item up to
/// `i` that has one.
pub open spec fn chapter_at(items: Seq<Seq<char>>, i: int) -> Option<Seq<char>> {
    let j = last_with(items, i, "h1"@);
    if j >= 0 {
        heading_of(items[j], "h1"@)
    } else {
        None
    }
}

/// The section in force at spine item `i`: the `<h2>` of the last item up to
/// `i` that has one, unless a later item (or the same one) did not also
/// start a chapter after it: an `<h1>` clears the section, and an `<h2>` in
/// the same item as the `<h1>` sets it again.
pub open spec fn section_at(items: Seq<Seq<char>>, i: int) -> Option<Seq<char>> {
    let j1 = last_with(items, i, "h1"@);
    let j2 = last_with(items, i, "h2"@);
    if j2 >= 0 && j2 >= j1 {
        heading_of(items[j2], "h2"@)
    } else {
        None
    }
}

/// Section `k` comes from spine item `i`: the item's text, stripped of tags,
/// under the chapter and section in force at that item.
pub open spec fn section_from_item(
    sections: Seq<SectionModel>,
    items: Seq<Seq<char>>,
    k: int,
    i: int,
) -> bool {
    &&& 0 <= i < items.len()
    &&& sections[k].text == strip_tags(items[i])
    &&& trim(strip_tags(items[i])).len() > 0
    &&& sections[k].chapter == chapter_at(items, i)
    &&& sections[k].section == section_at(items, i)
}

/// The sections come one per spine item with text, in reading order:
/// `idx[k]` is the item of section `k`.
pub open spec fn sections_of_items(sections: Seq<SectionModel>, items: Seq<Seq<char>>, idx: Seq<int>) -> bool {
    &&& idx.len() == sections.len()
    &&& forall|k: int| 0 <= k < idx.len() ==> #[trigger] section_from_item(sections, items, k, idx[k])
    &&& forall|a: int, b: int| 0 <= a < b < idx.len() ==> #[trigger] idx[a] < #[trigger] idx[b]
    &&& forall|i: int|
        0 <= i < items.len() && trim(strip_tags(#[trigger] items[i])).len() > 0 ==> exists|k: int|
            0 <= k < idx.len() && idx[k] == i
}

proof fn lemma_last_with_prefix(items: Seq<Seq<char>>, x: Seq<char>, i: int, tag: Seq<char>)
    requires
        -1 <= i < items.len(),
    ensures
        last_with(items.push(x), i, tag) == last_with(items, i, tag),
        -1 <= last_with(items, i, tag) <= i,
    decreases i + 1,
{
    if i >= 0 {
        assert(items.push(x)[i] == items[i]);
        lemma_last_with_prefix(items, x, i - 1, tag);
    }
}

proof fn lemma_epub_fold_items(items: Seq<Seq<char>>) -> (idx: Seq<int>)
    ensures
        sections_of_items(epub_fold(items).sections, items, idx),
        epub_fold(items).chapter == chapter_at(items, items.len() - 1),
        epub_fold(items).section == section_at(items, items.len() - 1),
    decreases items.len(),
{
    if items.len() == 0 {
        Seq::empty()
    } else {
        let prev = items.drop_last();
        let idx0 = lemma_epub_fold_items(prev);
        let x = items.last();
        let n = prev.len() as int;
        assert(prev.push(x) =~= items);
        let st = epub_fold(prev);
        let next = epub_step(st, x);
        assert(next == epub_fold(items));
        lemma_last_with_prefix(prev, x, n - 1, "h1"@);
        lemma_last_with_prefix(prev, x, n - 1, "h2"@);
        assert(items[n] == x);
        assert(next.chapter == chapter_at(items, n));
        assert(next.section == section_at(items, n));
        // earlier sections keep their items
        assert forall|k: int| 0 <= k < idx0.len() implies #[trigger] section_from_item(
            st.sections,
            items,
            k,
            idx0[k],
        ) by {
            let i = idx0[k];
            assert(section_from_item(st.sections, prev, k, i));
            assert(items[i] == prev[i]);
            lemma_last_with_prefix(prev, x, i, "h1"@);
            lemma_last_with_prefix(prev, x, i, "h2"@);
            assert(last_with(items, i, "h1"@) == last_with(prev, i, "h1"@));
            if last_with(prev, i, "h1"@) >= 0 {
                assert(items[last_with(prev, i, "h1"@)] == prev[last_with(prev, i, "h1"@)]);
            }
            if last_with(prev, i, "h2"@) >= 0 {
                assert(items[last_with(prev, i, "h2"@)] == prev[last_with(prev, i, "h2"@)]);
            }
        }
        if trim(strip_tags(x)).len() > 0 {
            let idx = idx0.push(n);
            assert forall|k: int| 0 <= k < idx.len() implies #[trigger] section_from_item(
                next.sections,
                items,
                k,
                idx[k],
            ) by {
                if k < idx0.len() {
                    assert(next.sections[k] == st.sections[k]);
                    assert(idx[k] == idx0[k]);
                    assert(section_from_item(st.sections, items, k, idx0[k]));
                } else {
                    assert(idx[k] == n);
                }
            }
            assert forall|a: int, b: int| 0 <= a < b < idx.len() implies #[trigger] idx[a]
                < #[trigger] idx[b] by {
                if b < idx0.len() {
                    assert(idx[a] == idx0[a] && idx[b] == idx0[b]);
                } else {
                    assert(idx[a] == idx0[a]);
                    assert(section_from_item(st.sections, prev, a, idx0[a]));
                }
            }
            assert forall|i: int|
                0 <= i < items.len() && trim(strip_tags(#[trigger] items[i])).len() > 0 implies exists|k: int|
                    0 <= k < idx.len() && idx[k] == i by {
                if i < n {
                    assert(items[i] == prev[i]);
                    assert(trim(strip_tags(prev[i])).len() > 0);
                    let k = choose|k: int| 0 <= k < idx0.len() && idx0[k] == i;
                    assert(idx[k] == i);
                } else {
                    assert(idx[idx0.len() as int] == i);
                }
            }
            idx
        } else {
            assert(next.sections == st.sections);
            assert forall|i: int|
                0 <= i < items.len() && trim(strip_tags(#[trigger] items[i])).len() > 0 implies exists|k: int|
                    0 <= k < idx0.len() && idx0[k] == i by {
                if i < n {
                    assert(items[i] == prev[i]);
                    assert(trim(strip_tags(prev[i])).len() > 0);
                }
            }
            idx0
        }
    }
}

/// EPUB sections follow the headings in force: the sections of a book come
/// one per spine item whose tag-stripped text is not blank, in reading
/// order, each holding that text; its chapter is the first `<h1>` of the
/// last item up to it that has one, and its section is the first `<h2>` of
/// the last item up to it that has one, provided no later item began a new
/// chapter (an item's own `<h1>` clears the section before its own `<h2>`
/// sets it); otherwise no section.
pub proof fn law_epub_sections_follow_headings(items: Seq<Seq<char>>)
    ensures
        exists|idx: Seq<int>| #[trigger] sections_of_items(epub_fold(items).sections, items, idx),
{
    let idx = lemma_epub_fold_items(items);
    assert(sections_of_items(epub_fold(items).sections, items, idx));
}

/// An item's own `<h2>` is the section of what it holds, whether or not the
/// item also opens a chapter; an `<h1>` clears the section only for items
/// without an `<h2>`.
pub proof fn law_epub_item_headings(items: Seq<Seq<char>>, i: int)
    requires
        0 <= i < items.len(),
    ensures
        heading_of(items[i], "h2"@) matches Some(h) ==> section_at(items, i) == Some(h),
        heading_of(items[i], "h1"@) matches Some(h) ==> chapter_at(items, i) == Some(h),
        heading_of(items[i], "h1"@) is Some && heading_of(items[i], "h2"@) is None ==> section_at(
            items,
            i,
        ) is None,
{
    lemma_last_with_bound(items, i, "h1"@);
    lemma_last_with_bound(items, i, "h2"@);
    lemma_last_with_bound(items, i - 1, "h2"@);
    if heading_of(items[i], "h2"@) is Some {
        assert(last_with(items, i, "h2"@) == i);
    } else {
        assert(last_with(items, i, "h2"@) == last_with(items, i - 1, "h2"@));
    }
    if heading_of(items[i], "h1"@) is Some {
        assert(last_with(items, i, "h1"@) == i);
    }
}

proof fn lemma_last_with_bound(items: Seq<Seq<char>>, i: int, tag: Seq<char>)
    requires
        i >= -1,
    ensures
        last_with(items, i, tag) <= i,
        last_with(items, i, tag) >= -1,
    decreases i + 1,
{
    if i >= 0 {
        lemma_last_with_bound(items, i - 1, tag);
    }
}

/// A line break in Markdown body text separates words as a space does:
/// text, a hard or soft line break, then text make one section whose text
/// is the two texts joined by a space, whitespace-normalized (none when
/// both are blank).
pub proof fn law_line_break_separates_words(a: String, b: String, hard: bool)
    ensures
        ({
            let brk = if hard {
                MdEvent::HardBreak
            } else {
                MdEvent::SoftBreak
            };
            let events = seq![MdEvent::Text(a), brk, MdEvent::Text(b)];
            let text = normalize_ws(a@ + seq![' '] + b@);
            md_sections(events) == if text.len() > 0 {
                seq![SectionModel { chapter: None, section: None, text }]
            } else {
                Seq::<SectionModel>::empty()
            }
        }),
{
    let brk = if hard {
        MdEvent::HardBreak
    } else {
        MdEvent::SoftBreak
    };
    let events = seq![MdEvent::Text(a), brk, MdEvent::Text(b)];
    let e1 = events.take(1);
    let e2 = events.take(2);
    assert(events.drop_last() =~= e2);
    assert(e2.drop_last() =~= e1);
    assert(e1.drop_last() =~= Seq::<MdEvent>::empty());
    assert(e1.last() == MdEvent::Text(a));
    assert(e2.last() == brk);
    let s0 = md_fold(Seq::<MdEvent>::empty());
    assert(s0 == initial_md_state());
    let s1 = md_fold(e1);
    assert(s1 == md_step(s0, MdEvent::Text(a)));
    assert(s1 == md_text(s0, a@));
    assert(Seq::<char>::empty() + a@ =~= a@);
    assert(s1.body =~= a@);
    assert(!s1.in_heading);
    let s2 = md_fold(e2);
    assert(s2 == md_step(s1, brk));
    assert(s2 == md_break(s1));
    assert(s2.body =~= a@.push(' '));
    assert(a@.push(' ') =~= a@ + seq![' ']);
    let s3 = md_fold(events);
    assert(s3.body =~= a@ + seq![' '] + b@);
    assert(s3.sections.len() == 0);
}

/// Position `o` starts a line of `s`.
pub open spec fn starts_line(s: Seq<char>, o: int) -> bool {
    o == 0 || (0 < o <= s.len() && s[o - 1] == '\n')
}

/// The line of `s` that starts at `o` reads `---` (trailing carriage
/// returns allowed).
pub open spec fn fence_line_at(s: Seq<char>, o: int) -> bool {
    starts_line(s, o) && is_fence_line(s, o, line_end(s, o))
}

proof fn lemma_line_end_first(s: Seq<char>, q: int, i: int)
    requires
        0 <= q <= i < s.len(),
        s[i] == '\n',
    ensures
        line_end(s, q) <= i,
        line_end(s, q) < s.len(),
        s[line_end(s, q)] == '\n',
    decreases i - q,
{
    if s[q] != '\n' {
        lemma_line_end_first(s, q + 1, i);
    }
}

proof fn lemma_line_end_newline(s: Seq<char>, q: int)
    requires
        0 <= q <= s.len(),
    ensures
        line_end(s, q) < s.len() ==> s[line_end(s, q)] == '\n',
    decreases s.len() - q,
{
    if q < s.len() && s[q] != '\n' {
        lemma_line_end_newline(s, q + 1);
    }
}

proof fn lemma_closing_fence_finds(s: Seq<char>, q: int, o: int)
    requires
        starts_line(s, q),
        0 <= q <= o,
        fence_line_at(s, o),
        forall|x: int| q <= x < o && #[trigger] fence_line_at(s, x) ==> false,
    ensures
        closing_fence(s, q) == Some((o, line_end(s, o))),
    decreases o - q,
{
    lemma_line_end_bounds(s, q);
    if q < o {
        assert(!fence_line_at(s, q));
        assert(s[o - 1] == '\n');
        lemma_line_end_first(s, q, o - 1);
        let e = line_end(s, q);
        assert(starts_line(s, e + 1));
        lemma_closing_fence_finds(s, e + 1, o);
    }
}

proof fn lemma_closing_fence_sound(s: Seq<char>, q: int)
    requires
        starts_line(s, q),
        0 <= q <= s.len(),
    ensures
        closing_fence(s, q) matches Some((o, e)) ==> q <= o && fence_line_at(s, o) && e == line_end(s, o),
    decreases s.len() + 1 - q,
{
    lemma_line_end_bounds(s, q);
    let e = line_end(s, q);
    if !is_fence_line(s, q, e) && e < s.len() {
        lemma_line_end_newline(s, q);
        lemma_closing_fence_sound(s, e + 1);
    }
}

/// Front matter ends at the first fence line, however many lines come
/// before it: when the content opens with a `---` line and some later line
/// reads `---`, what remains is the text after the first such line (after
/// its newline, or after the `---` when it is the last line); when no later
/// line reads `---`, the content is kept whole.
pub proof fn law_front_matter_ends_at_first_fence(c: Seq<char>, o: int)
    requires
        opening_fence_len(c) > 0,
        fence_line_at(c.skip(opening_fence_len(c)), o),
        forall|x: int| 0 <= x < o && #[trigger] fence_line_at(c.skip(opening_fence_len(c)), x) ==> false,
    ensures
        ({
            let rest = c.skip(opening_fence_len(c));
            let e = line_end(rest, o);
            after_front_matter(c) == if e < rest.len() {
                rest.skip(e + 1)
            } else {
                rest.skip(o + 3)
            }
        }),
{
    let rest = c.skip(opening_fence_len(c));
    assert(o >= 0) by {
        if o < 0 {
            assert(!starts_line(rest, o));
        }
    }
    lemma_closing_fence_finds(rest, 0, o);
}

/// Without a closing fence line the content is kept whole.
pub proof fn law_front_matter_needs_closing_fence(c: Seq<char>)
    requires
        forall|x: int| #[trigger] fence_line_at(c.skip(opening_fence_len(c)), x) ==> false,
    ensures
        after_front_matter(c) == c,
{
    if opening_fence_len(c) > 0 {
        let rest = c.skip(opening_fence_len(c));
        lemma_closing_fence_sound(rest, 0);
    }
}

proof fn lemma_pages_of_positions(texts: Seq<Seq<char>>)
    requires
        texts.len() <= u32::MAX,
    ensures
        forall|k: int|
            0 <= k < pages_of(texts).len() ==> 1 <= (#[trigger] pages_of(texts)[k]).page_number <= texts.len()
                && texts[pages_of(texts)[k].page_number - 1] == pages_of(texts)[k].text && trim(
                pages_of(texts)[k].text,
            ).len() > 0,
        forall|a: int, b: int|
            0 <= a < b < pages_of(texts).len() ==> (#[trigger] pages_of(texts)[a]).page_number
                < (#[trigger] pages_of(texts)[b]).page_number,
        forall|i: int|
            0 <= i < texts.len() && trim(#[trigger] texts[i]).len() > 0 ==> exists|k: int|
                0 <= k < pages_of(texts).len() && pages_of(texts)[k].page_number == i + 1,
    decreases texts.len(),
{
    if texts.len() > 0 {
        let prev = texts.drop_last();
        lemma_pages_of_positions(prev);
        let pp = pages_of(prev);
        let ps = pages_of(texts);
        let n = texts.len() as int;
        assert forall|k: int| 0 <= k < pp.len() implies ps[k] == pp[k] by {}
        assert forall|k: int| 0 <= k < ps.len() implies 1 <= (#[trigger] ps[k]).page_number <= texts.len()
            && texts[ps[k].page_number - 1] == ps[k].text && trim(ps[k].text).len() > 0 by {
            if k < pp.len() {
                assert(ps[k] == pp[k]);
                assert(texts[pp[k].page_number - 1] == prev[pp[k].page_number - 1]);
            }
        }
        assert forall|a: int, b: int| 0 <= a < b < ps.len() implies (#[trigger] ps[a]).page_number
            < (#[trigger] ps[b]).page_number by {
            if b < pp.len() {
                assert(ps[a] == pp[a] && ps[b] == pp[b]);
            } else {
                assert(ps[a] == pp[a]);
            }
        }
        assert forall|i: int| 0 <= i < texts.len() && trim(#[trigger] texts[i]).len() > 0 implies exists|k: int|
            0 <= k < ps.len() && ps[k].page_number == i + 1 by {
            if i < n - 1 {
                assert(texts[i] == prev[i]);
                assert(trim(prev[i]).len() > 0);
                let k = choose|k: int| 0 <= k < pp.len() && pp[k].page_number == i + 1;
                assert(ps[k] == pp[k]);
            } else {
                assert(ps[pp.len() as int].page_number == n);
            }
        }
    }
}

/// Pages keep their place in the file: every page of a PDF document holds
/// the text of the page at its 1-based number, is not blank, and comes in
/// increasing page order; every page of the file with text is there, under
/// its own number, blank pages counting in the numbering.
pub proof fn law_pdf_pages_numbered_in_file(texts: Seq<Seq<char>>)
    requires
        texts.len() <= u32::MAX,
    ensures
        forall|k: int|
            0 <= k < pages_of(texts).len() ==> 1 <= (#[trigger] pages_of(texts)[k]).page_number <= texts.len()
                && texts[pages_of(texts)[k].page_number - 1] == pages_of(texts)[k].text && trim(
                pages_of(texts)[k].text,
            ).len() > 0,
        forall|a: int, b: int|
            0 <= a < b < pages_of(texts).len() ==> (#[trigger] pages_of(texts)[a]).page_number
                < (#[trigger] pages_of(texts)[b]).page_number,
        forall|i: int|
            0 <= i < texts.len() && trim(#[trigger] texts[i]).len() > 0 ==> exists|k: int|
                0 <= k < pages_of(texts).len() && pages_of(texts)[k].page_number == i + 1,
{
    lemma_pages_of_positions(texts);
}

} // verus!
