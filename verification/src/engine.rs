//! The write path's data preparation: which texts go to the embedder and
//! which rows replace a document's stored passages.

use vstd::prelude::*;

use crate::store::{after_upsert, all_of_doc, lemma_upsert_replaces, of_doc, Passage, PassageModel};

verus! {

/// The texts of `(source, location, text)` passages, in order: what one
/// batch embedding call receives.
pub fn passage_texts(passages: &Vec<(String, String, String)>) -> (r: Vec<String>)
    ensures
        r.len() == passages.len(),
        forall|k: int| 0 <= k < r.len() ==> (#[trigger] r[k])@ == passages[k].2@,
{
    let mut r: Vec<String> = Vec::new();
    let mut k: usize = 0;
    while k < passages.len()
        invariant
            k <= passages.len(),
            r.len() == k,
            forall|j: int| 0 <= j < k ==> (#[trigger] r[j])@ == passages[j].2@,
        decreases passages.len() - k,
    {
        r.push(passages[k].2.clone());
        k = k + 1;
    }
    r
}

/// The row stored for a `(source, location, text)` passage of `doc_id`.
pub open spec fn passage_row(doc_id: Seq<char>, p: (Seq<char>, Seq<char>, Seq<char>)) -> PassageModel {
    PassageModel { doc_id, source: p.0, location: p.1, text: p.2 }
}

/// The rows written for `(source, location, text)` passages of `doc_id`.
pub open spec fn rows_for_doc(
    doc_id: Seq<char>,
    ps: Seq<(Seq<char>, Seq<char>, Seq<char>)>,
) -> Seq<PassageModel> {
    Seq::new(ps.len(), |k: int| passage_row(doc_id, ps[k]))
}

/// The views of a list of passages.
pub open spec fn passage_views(ps: Seq<(String, String, String)>) -> Seq<
    (Seq<char>, Seq<char>, Seq<char>),
> {
    ps.map_values(|p: (String, String, String)| p@)
}

/// The models of a list of rows.
pub open spec fn row_models(rs: Seq<Passage>) -> Seq<PassageModel> {
    rs.map_values(|r: Passage| r@)
}

/// Re-ingesting a document replaces its rows instead of adding to them: the
/// store deletes the rows that `delete_predicate(doc_id)` selects and adds
/// the rows of `passages_for_doc`, so after two upserts of `doc_id` the
/// table is what the second upsert alone makes of it, and the rows of every
/// other document are left as they were.
pub proof fn law_upsert_replaces(
    table: Seq<PassageModel>,
    doc_id: Seq<char>,
    first: Seq<(Seq<char>, Seq<char>, Seq<char>)>,
    second: Seq<(Seq<char>, Seq<char>, Seq<char>)>,
)
    ensures
        after_upsert(
            after_upsert(table, doc_id, rows_for_doc(doc_id, first)),
            doc_id,
            rows_for_doc(doc_id, second),
        ) == after_upsert(table, doc_id, rows_for_doc(doc_id, second)),
        forall|d: Seq<char>|
            d != doc_id ==> #[trigger] of_doc(
                after_upsert(table, doc_id, rows_for_doc(doc_id, first)),
                d,
            ) == of_doc(table, d),
{
    let rows = rows_for_doc(doc_id, first);
    assert(all_of_doc(rows, doc_id));
    lemma_upsert_replaces(table, doc_id, rows, rows_for_doc(doc_id, second));
}

/// The rows that replace every stored passage of `doc_id`: one per
/// `(source, location, text)` passage, in order, all keyed by `doc_id`.
pub fn passages_for_doc(doc_id: &str, passages: &Vec<(String, String, String)>) -> (r: Vec<
    Passage,
>)
    ensures
        r.len() == passages.len(),
        forall|k: int|
            0 <= k < r.len() ==> (#[trigger] r[k])@ == passage_row(doc_id@, passages[k]@),
        row_models(r@) == rows_for_doc(doc_id@, passage_views(passages@)),
{
    let mut r: Vec<Passage> = Vec::new();
    let mut k: usize = 0;
    while k < passages.len()
        invariant
            k <= passages.len(),
            r.len() == k,
            forall|j: int| 0 <= j < k ==> (#[trigger] r[j])@ == passage_row(doc_id@, passages[j]@),
        decreases passages.len() - k,
    {
        let p = &passages[k];
        r.push(
            Passage {
                doc_id: doc_id.to_owned(),
                source: p.0.clone(),
                location: p.1.clone(),
                text: p.2.clone(),
            },
        );
        k = k + 1;
    }
    assert(row_models(r@) =~= rows_for_doc(doc_id@, passage_views(passages@)));
    r
}

} // verus!
