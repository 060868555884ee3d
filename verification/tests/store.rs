use athenaeum::error::CoreError;
use athenaeum::store::{check_add_batch, delete_predicate, sql_quote, Passage};

#[test]
fn test_sql_quote_plain_string() {
    assert_eq!(sql_quote("abc"), "'abc'");
}

#[test]
fn test_sql_quote_with_apostrophe() {
    assert_eq!(sql_quote("O'Reilly"), "'O''Reilly'");
}

#[test]
fn test_sql_quote_multiple_apostrophes() {
    assert_eq!(sql_quote("a'b'c"), "'a''b''c'");
}

#[test]
fn sql_quote_edge_cases() {
    assert_eq!(sql_quote(""), "''");
    assert_eq!(sql_quote("'"), "''''");
    assert_eq!(sql_quote("é'ü"), "'é''ü'");
}

#[test]
fn delete_predicate_quotes_apostrophe_path() {
    assert_eq!(
        delete_predicate("O'Reilly - SICP.pdf"),
        "doc_id = 'O''Reilly - SICP.pdf'"
    );
}

#[test]
fn add_vectors_passages_length_mismatch_errors() {
    // 2 passages but only 1 vector
    let result = check_add_batch(8, &vec![8], 2);
    assert!(matches!(result, Err(CoreError::StoreFailed(_))));
}

#[test]
fn add_vector_wrong_dim_errors() {
    // Vector dim 4 but store expects 8
    let result = check_add_batch(8, &vec![4], 1);
    assert!(matches!(result, Err(CoreError::DimensionMismatch { .. })));
}

#[test]
fn add_batch_reports_first_bad_dimension() {
    match check_add_batch(8, &vec![8, 3, 5], 3) {
        Err(CoreError::DimensionMismatch { expected, actual }) => {
            assert_eq!((expected, actual), (8, 3))
        }
        other => panic!("unexpected {other:?}"),
    }
    assert!(check_add_batch(8, &vec![8, 8], 2).is_ok());
    assert!(check_add_batch(8, &vec![], 0).is_ok());
    match check_add_batch(8, &vec![8], 0) {
        Err(CoreError::StoreFailed(m)) => {
            assert_eq!(m, "vectors and passages slices have different lengths")
        }
        other => panic!("unexpected {other:?}"),
    }
}

#[test]
fn passage_clone_keeps_fields() {
    let p = Passage {
        doc_id: "d".to_string(),
        source: "s".to_string(),
        location: "l".to_string(),
        text: "t".to_string(),
    };
    let q = p.clone();
    assert_eq!((q.doc_id, q.source, q.location, q.text), (p.doc_id, p.source, p.location, p.text));
}
