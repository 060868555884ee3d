//! The passage row stored beside each embedding, SQL quoting for the
//! dedup delete predicate, and the shape checks a batch insert makes before
//! anything is written.

use vstd::prelude::*;

use crate::error::CoreError;
use crate::text::{from_chars, push_str_chars, to_chars};

verus! {

/// A text passage stored in the vector database.
///
/// The raw `text` is always stored alongside the vector so that search results
/// carry the passage as written. `doc_id` identifies the source document for
/// dedup/upsert: all chunks from one file share it.
#[derive(Debug)]
pub struct Passage {
    /// Absolute path of the source document (the dedup key).
    pub doc_id: String,
    /// Title or path of the source document.
    pub source: String,
    /// Human-readable location within the source (e.g. "p. 42").
    pub location: String,
    /// The raw passage text that was embedded.
    pub text: String,
}

/// The contents of a [`Passage`].
pub struct PassageModel {
    pub doc_id: Seq<char>,
    pub source: Seq<char>,
    pub location: Seq<char>,
    pub text: Seq<char>,
}

impl View for Passage {
    type V = PassageModel;

    open spec fn view(&self) -> PassageModel {
        PassageModel {
            doc_id: self.doc_id@,
            source: self.source@,
            location: self.location@,
            text: self.text@,
        }
    }
}

impl Clone for Passage {
    fn clone(&self) -> (r: Self)
        ensures
            r@ == self@,
    {
        Passage {
            doc_id: self.doc_id.clone(),
            source: self.source.clone(),
            location: self.location.clone(),
            text: self.text.clone(),
        }
    }
}

// ─── SQL quoting ────────────────────────────────────────────────────────────

/// One character inside a SQL string literal: a quote is doubled.
pub open spec fn escape_char(c: char) -> Seq<char> {
    if c == '\'' {
        seq!['\'', '\'']
    } else {
        seq![c]
    }
}

/// The body of a SQL string literal for `s`: every `'` doubled.
pub open spec fn sql_escape(s: Seq<char>) -> Seq<char>
    decreases s.len(),
{
    if s.len() == 0 {
        Seq::empty()
    } else {
        escape_char(s[0]) + sql_escape(s.drop_first())
    }
}

/// The SQL string literal for `s`: its escaped body between single quotes.
pub open spec fn sql_quoted(s: Seq<char>) -> Seq<char> {
    seq!['\''] + sql_escape(s) + seq!['\'']
}

/// Reads the body of a SQL string literal: a quote must come doubled and
/// stands for one quote; any other character stands for itself.
pub open spec fn sql_unescape(body: Seq<char>) -> Option<Seq<char>>
    decreases body.len(),
{
    if body.len() == 0 {
        Some(Seq::empty())
    } else if body[0] == '\'' {
        if body.len() >= 2 && body[1] == '\'' {
            match sql_unescape(body.skip(2)) {
                Some(rest) => Some(seq!['\''] + rest),
                None => None,
            }
        } else {
            None
        }
    } else {
        match sql_unescape(body.drop_first()) {
            Some(rest) => Some(seq![body[0]] + rest),
            None => None,
        }
    }
}

/// The value a SQL string literal denotes, if it is one.
pub open spec fn sql_literal_value(q: Seq<char>) -> Option<Seq<char>> {
    if q.len() >= 2 && q[0] == '\'' && q.last() == '\'' {
        sql_unescape(q.subrange(1, q.len() - 1))
    } else {
        None
    }
}

proof fn lemma_escape_push(s: Seq<char>, c: char)
    ensures
        sql_escape(s.push(c)) == sql_escape(s) + escape_char(c),
    decreases s.len(),
{
    if s.len() == 0 {
        let t = s.push(c);
        assert(t.drop_first() =~= Seq::<char>::empty());
        assert(sql_escape(t.drop_first()) =~= Seq::<char>::empty());
        assert(t[0] == c);
        assert(sql_escape(t) =~= escape_char(c));
        assert(sql_escape(s) =~= Seq::<char>::empty());
    } else {
        assert(s.push(c).drop_first() =~= s.drop_first().push(c));
        lemma_escape_push(s.drop_first(), c);
        assert(sql_escape(s.push(c)) =~= sql_escape(s) + escape_char(c));
    }
}

proof fn lemma_unescape_escape(s: Seq<char>)
    ensures
        sql_unescape(sql_escape(s)) == Some(s),
    decreases s.len(),
{
    if s.len() > 0 {
        lemma_unescape_escape(s.drop_first());
        let e = sql_escape(s);
        if s[0] == '\'' {
            assert(e.skip(2) =~= sql_escape(s.drop_first()));
        } else {
            assert(e.drop_first() =~= sql_escape(s.drop_first()));
        }
        assert(s =~= seq![s[0]] + s.drop_first());
    }
}

/// A quoted value reads back as exactly that value: the literal that
/// `sql_quote` builds denotes its argument, apostrophes included.
pub proof fn law_sql_quote_round_trip(s: Seq<char>)
    ensures
        sql_literal_value(sql_quoted(s)) == Some(s),
{
    let q = sql_quoted(s);
    assert(q.subrange(1, q.len() - 1) =~= sql_escape(s));
    lemma_unescape_escape(s);
}

/// Distinct values get distinct literals.
pub proof fn law_sql_quote_injective(a: Seq<char>, b: Seq<char>)
    ensures
        sql_quoted(a) == sql_quoted(b) ==> a == b,
{
    law_sql_quote_round_trip(a);
    law_sql_quote_round_trip(b);
}

/// Escape single quotes for safe insertion in a SQL filter predicate: every
/// `'` is doubled and the result is wrapped in single quotes.
pub fn sql_quote(value: &str) -> (r: String)
    ensures
        r@ == sql_quoted(value@),
{
    let v = to_chars(value);
    let mut out: Vec<char> = Vec::new();
    out.push('\'');
    let mut i: usize = 0;
    while i < v.len()
        invariant
            i <= v.len(),
            out@ == seq!['\''] + sql_escape(v@.take(i as int)),
        decreases v.len() - i,
    {
        let c = v[i];
        proof {
            assert(v@.take(i + 1) =~= v@.take(i as int).push(c));
            lemma_escape_push(v@.take(i as int), c);
        }
        if c == '\'' {
            out.push('\'');
            out.push('\'');
        } else {
            out.push(c);
        }
        i = i + 1;
        assert(out@ =~= seq!['\''] + sql_escape(v@.take(i as int)));
    }
    out.push('\'');
    assert(v@.take(v.len() as int) == v@);
    from_chars(&out)
}

/// The predicate that selects a document's rows: `doc_id = '<quoted id>'`.
pub open spec fn delete_predicate_for(doc_id: Seq<char>) -> Seq<char> {
    "doc_id = "@ + sql_quoted(doc_id)
}

/// The filter that deletes every stored row of `doc_id` before an upsert.
pub fn delete_predicate(doc_id: &str) -> (r: String)
    ensures
        r@ == delete_predicate_for(doc_id@),
{
    let q = sql_quote(doc_id);
    let mut out: Vec<char> = Vec::new();
    push_str_chars(&mut out, "doc_id = ");
    push_str_chars(&mut out, q.as_str());
    from_chars(&out)
}

// ─── Batch shape ────────────────────────────────────────────────────────────

/// Checks a batch before it is written: `vector_lens` are the lengths of
/// the vectors, `n_passages` the number of passages. The counts must agree;
/// then every vector must have the store's dimension, and the first one that
/// does not is reported.
pub fn check_add_batch(dim: usize, vector_lens: &Vec<usize>, n_passages: usize) -> (r: Result<
    (),
    CoreError,
>)
    ensures
        vector_lens.len() != n_passages ==> (r matches Err(CoreError::StoreFailed(m)) && m@
            == "vectors and passages slices have different lengths"@),
        vector_lens.len() == n_passages ==> match r {
            Ok(()) => forall|i: int| 0 <= i < vector_lens.len() ==> vector_lens[i] == dim,
            Err(CoreError::DimensionMismatch { expected, actual }) => {
                &&& expected == dim
                &&& exists|i: int|
                    0 <= i < vector_lens.len() && vector_lens[i] == actual && actual != dim
                        && forall|j: int| 0 <= j < i ==> vector_lens[j] == dim
            },
            Err(_) => false,
        },
{
    if vector_lens.len() != n_passages {
        return Err(
            CoreError::StoreFailed(
                String::from_str("vectors and passages slices have different lengths"),
            ),
        );
    }
    let mut i: usize = 0;
    while i < vector_lens.len()
        invariant
            i <= vector_lens.len(),
            vector_lens.len() == n_passages,
            forall|j: int| 0 <= j < i ==> vector_lens[j] == dim,
        decreases vector_lens.len() - i,
    {
        if vector_lens[i] != dim {
            return Err(CoreError::DimensionMismatch { expected: dim, actual: vector_lens[i] });
        }
        i = i + 1;
    }
    Ok(())
}

// ─── Upsert model ───────────────────────────────────────────────────────────

/// The rows of a table that belong to other documents than `doc_id`: what
/// remains once the rows selected by `delete_predicate_for(doc_id)` are gone.
pub open spec fn without_doc(table: Seq<PassageModel>, doc_id: Seq<char>) -> Seq<PassageModel>
    decreases table.len(),
{
    if table.len() == 0 {
        Seq::empty()
    } else if table.last().doc_id == doc_id {
        without_doc(table.drop_last(), doc_id)
    } else {
        without_doc(table.drop_last(), doc_id).push(table.last())
    }
}

/// The table after a document upsert: its rows of other documents, then the
/// new rows.
pub open spec fn after_upsert(
    table: Seq<PassageModel>,
    doc_id: Seq<char>,
    rows: Seq<PassageModel>,
) -> Seq<PassageModel> {
    without_doc(table, doc_id) + rows
}

/// Every row belongs to `doc_id`.
pub open spec fn all_of_doc(rows: Seq<PassageModel>, doc_id: Seq<char>) -> bool {
    forall|k: int| 0 <= k < rows.len() ==> (#[trigger] rows[k]).doc_id == doc_id
}

proof fn lemma_without_doc_add(a: Seq<PassageModel>, b: Seq<PassageModel>, d: Seq<char>)
    ensures
        without_doc(a + b, d) == without_doc(a, d) + without_doc(b, d),
    decreases b.len(),
{
    if b.len() == 0 {
        assert(a + b =~= a);
        assert(without_doc(a, d) + without_doc(b, d) =~= without_doc(a, d));
    } else {
        assert((a + b).drop_last() =~= a + b.drop_last());
        lemma_without_doc_add(a, b.drop_last(), d);
        if b.last().doc_id != d {
            assert(without_doc(a + b, d) =~= without_doc(a, d) + without_doc(b, d));
        }
    }
}

proof fn lemma_without_doc_of_doc(rows: Seq<PassageModel>, d: Seq<char>)
    requires
        all_of_doc(rows, d),
    ensures
        without_doc(rows, d) == Seq::<PassageModel>::empty(),
    decreases rows.len(),
{
    if rows.len() > 0 {
        let prev = rows.drop_last();
        assert forall|k: int| 0 <= k < prev.len() implies (#[trigger] prev[k]).doc_id == d by {
            assert(prev[k] == rows[k]);
        }
        lemma_without_doc_of_doc(prev, d);
        assert(rows.last() == rows[rows.len() - 1]);
    }
}

proof fn lemma_without_doc_idem(t: Seq<PassageModel>, d: Seq<char>)
    ensures
        without_doc(without_doc(t, d), d) == without_doc(t, d),
    decreases t.len(),
{
    if t.len() > 0 {
        lemma_without_doc_idem(t.drop_last(), d);
        if t.last().doc_id != d {
            let w = without_doc(t.drop_last(), d);
            assert(w.push(t.last()).drop_last() =~= w);
        }
    }
}

/// The rows of a table that belong to `doc_id`, in order.
pub open spec fn of_doc(table: Seq<PassageModel>, doc_id: Seq<char>) -> Seq<PassageModel>
    decreases table.len(),
{
    if table.len() == 0 {
        Seq::empty()
    } else if table.last().doc_id == doc_id {
        of_doc(table.drop_last(), doc_id).push(table.last())
    } else {
        of_doc(table.drop_last(), doc_id)
    }
}

proof fn lemma_of_doc_add(a: Seq<PassageModel>, b: Seq<PassageModel>, d: Seq<char>)
    ensures
        of_doc(a + b, d) == of_doc(a, d) + of_doc(b, d),
    decreases b.len(),
{
    if b.len() == 0 {
        assert(a + b =~= a);
        assert(of_doc(a, d) + of_doc(b, d) =~= of_doc(a, d));
    } else {
        assert((a + b).drop_last() =~= a + b.drop_last());
        lemma_of_doc_add(a, b.drop_last(), d);
        if b.last().doc_id == d {
            assert(of_doc(a + b, d) =~= of_doc(a, d) + of_doc(b, d));
        }
    }
}

proof fn lemma_of_doc_without(t: Seq<PassageModel>, x: Seq<char>, d: Seq<char>)
    requires
        d != x,
    ensures
        of_doc(without_doc(t, x), d) == of_doc(t, d),
    decreases t.len(),
{
    if t.len() > 0 {
        lemma_of_doc_without(t.drop_last(), x, d);
        let w = without_doc(t.drop_last(), x);
        if t.last().doc_id != x {
            assert(w.push(t.last()).drop_last() =~= w);
        }
    }
}

proof fn lemma_of_doc_other(rows: Seq<PassageModel>, x: Seq<char>, d: Seq<char>)
    requires
        all_of_doc(rows, x),
        d != x,
    ensures
        of_doc(rows, d) == Seq::<PassageModel>::empty(),
    decreases rows.len(),
{
    if rows.len() > 0 {
        let prev = rows.drop_last();
        assert forall|k: int| 0 <= k < prev.len() implies (#[trigger] prev[k]).doc_id == x by {
            assert(prev[k] == rows[k]);
        }
        lemma_of_doc_other(prev, x, d);
        assert(rows.last() == rows[rows.len() - 1]);
    }
}

/// Upserting rows of `doc_id` twice leaves what the second upsert alone
/// makes of the table, and the rows of every other document as they were.
pub proof fn lemma_upsert_replaces(
    table: Seq<PassageModel>,
    doc_id: Seq<char>,
    first: Seq<PassageModel>,
    second: Seq<PassageModel>,
)
    requires
        all_of_doc(first, doc_id),
    ensures
        after_upsert(after_upsert(table, doc_id, first), doc_id, second) == after_upsert(
            table,
            doc_id,
            second,
        ),
        forall|d: Seq<char>|
            d != doc_id ==> #[trigger] of_doc(after_upsert(table, doc_id, first), d) == of_doc(
                table,
                d,
            ),
{
    lemma_without_doc_add(without_doc(table, doc_id), first, doc_id);
    lemma_without_doc_of_doc(first, doc_id);
    lemma_without_doc_idem(table, doc_id);
    assert(without_doc(without_doc(table, doc_id), doc_id) + Seq::<PassageModel>::empty()
        =~= without_doc(table, doc_id));
    assert forall|d: Seq<char>| d != doc_id implies #[trigger] of_doc(
        after_upsert(table, doc_id, first),
        d,
    ) == of_doc(table, d) by {
        lemma_of_doc_add(without_doc(table, doc_id), first, d);
        lemma_of_doc_without(table, doc_id, d);
        lemma_of_doc_other(first, doc_id, d);
        assert(of_doc(table, d) + Seq::<PassageModel>::empty() =~= of_doc(table, d));
    }
}

} // verus!
