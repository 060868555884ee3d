use athenaeum::embed::{
    check_embeddings_shape, embed_endpoint, validate_inputs, FailingEmbedder, FakeEmbedder,
};
use athenaeum::engine::{passage_texts, passages_for_doc};
use athenaeum::error::CoreError;

fn strings(xs: &[&str]) -> Vec<String> {
    xs.iter().map(|s| s.to_string()).collect()
}

#[test]
fn fake_embedder_returns_correct_dim() {
    let embedder = FakeEmbedder { dim: 4 };
    let result = embedder.embed_levels(&strings(&["hello", "world"])).unwrap();
    assert_eq!(result.len(), 2);
    assert_eq!(result[0].len(), 4);
    assert_eq!(result[1].len(), 4);
}

#[test]
fn fake_embedder_is_deterministic() {
    let embedder = FakeEmbedder { dim: 8 };
    let a = embedder.embed_levels(&strings(&["test"])).unwrap();
    let b = embedder.embed_levels(&strings(&["test"])).unwrap();
    assert_eq!(a, b);
}

#[test]
fn fake_embedder_different_strings_differ() {
    let embedder = FakeEmbedder { dim: 8 };
    let a = embedder.embed_levels(&strings(&["hello"])).unwrap();
    let b = embedder.embed_levels(&strings(&["world"])).unwrap();
    assert_ne!(a, b);
}

#[test]
fn fake_embedder_empty_input_errors() {
    let embedder = FakeEmbedder { dim: 4 };
    let result = embedder.embed_levels(&strings(&[""]));
    assert!(matches!(result, Err(CoreError::EmptyInput)));
}

#[test]
fn fake_embedder_empty_slice_errors() {
    let embedder = FakeEmbedder { dim: 4 };
    let result = embedder.embed_levels(&vec![]);
    assert!(matches!(result, Err(CoreError::EmptyInput)));
}

#[test]
fn fake_embedder_levels_follow_byte_sum() {
    // "hello" bytes sum to 532; 532 mod 256 = 20
    let v = FakeEmbedder { dim: 3 }.embed_levels(&strings(&["hello"])).unwrap();
    assert_eq!(v, vec![vec![20, 21, 22]]);
    // wraps at 256
    let v = FakeEmbedder { dim: 3 }.embed_levels(&strings(&["\u{ff}"])).unwrap();
    // U+00FF is encoded as 0xC3 0xBF: 195 + 191 = 386, mod 256 = 130
    assert_eq!(v, vec![vec![130, 131, 132]]);
    let v = FakeEmbedder { dim: 2 }.embed_levels(&strings(&["\u{7f}\u{7f}\u{2}"])).unwrap();
    // 127 + 127 + 2 = 256 -> 0
    assert_eq!(v, vec![vec![0, 1]]);
}

#[test]
fn failing_embedder_fails_on_nth_call() {
    let mut embedder = FailingEmbedder::new(4, 2);

    // First call succeeds
    let result = embedder.embed_levels(&strings(&["hello"]));
    assert!(result.is_ok());

    // Second call fails
    let result = embedder.embed_levels(&strings(&["world"]));
    assert!(matches!(result, Err(CoreError::Http(_))));

    // Third call succeeds again
    let result = embedder.embed_levels(&strings(&["third"]));
    assert!(result.is_ok());
}

#[test]
fn failing_embedder_does_not_count_refused_calls() {
    let mut embedder = FailingEmbedder::new(4, 1);
    assert!(matches!(embedder.embed_levels(&vec![]), Err(CoreError::EmptyInput)));
    assert_eq!(embedder.counter, 0);
    match embedder.embed_levels(&strings(&["x"])) {
        Err(CoreError::Http(m)) => assert_eq!(m, "simulated embed failure"),
        other => panic!("unexpected {other:?}"),
    }
    assert_eq!(embedder.counter, 1);
}

#[test]
fn ollama_embedder_empty_input() {
    let result = validate_inputs(&vec![]);
    assert!(matches!(result, Err(CoreError::EmptyInput)));

    let result = validate_inputs(&strings(&[""]));
    assert!(matches!(result, Err(CoreError::EmptyInput)));
    assert!(validate_inputs(&strings(&["a", "b"])).is_ok());
    assert!(matches!(validate_inputs(&strings(&["a", ""])), Err(CoreError::EmptyInput)));
}

#[test]
fn ollama_embedder_count_mismatch() {
    // one vector returned for two inputs
    let result = check_embeddings_shape(2, 4, &vec![4]);
    match result {
        Err(CoreError::DimensionMismatch { expected, actual }) => assert_eq!((expected, actual), (2, 1)),
        other => panic!("unexpected {other:?}"),
    }
}

#[test]
fn ollama_embedder_dim_mismatch() {
    // dim 3, but expected dim 4
    let result = check_embeddings_shape(1, 4, &vec![3]);
    match result {
        Err(CoreError::DimensionMismatch { expected, actual }) => assert_eq!((expected, actual), (4, 3)),
        other => panic!("unexpected {other:?}"),
    }
    assert!(check_embeddings_shape(2, 4, &vec![4, 4]).is_ok());
}

#[test]
fn endpoint_is_under_base_url() {
    assert_eq!(embed_endpoint("http://localhost:11434"), "http://localhost:11434/api/embed");
}

#[test]
fn upsert_rows_carry_doc_id() {
    let passages = vec![
        ("book-a.epub".to_string(), "p. 1".to_string(), "first chunk".to_string()),
        ("book-a.epub".to_string(), "p. 2".to_string(), "second chunk".to_string()),
    ];
    assert_eq!(passage_texts(&passages), strings(&["first chunk", "second chunk"]));
    let rows = passages_for_doc("d1", &passages);
    assert_eq!(rows.len(), 2);
    assert!(rows.iter().all(|r| r.doc_id == "d1" && r.source == "book-a.epub"));
    assert_eq!(rows[1].location, "p. 2");
    assert_eq!(rows[1].text, "second chunk");
}
