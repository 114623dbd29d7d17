//! The per-project service end to end, with a deterministic in-test
//! embedding oracle, and the dispatcher's registry.

use local_code_search::dispatch::Dispatcher;
use local_code_search::embedding::Embedding;
use local_code_search::project_files::FileSource;
use local_code_search::project_service::ProjectService;
use local_code_search::rpc::RpcError;

/// A stand-in oracle: a small byte histogram, deterministic and cheap.
fn embed(text: &[u8]) -> Embedding {
    let mut v = vec![0i64; 16];
    for &b in text {
        v[(b % 16) as usize] += 1;
    }
    Embedding::new(v).unwrap()
}

fn source(path: &[u8], text: &[u8]) -> FileSource {
    FileSource {
        path: path.to_vec(),
        text: text.to_vec(),
    }
}

/// Brings the whole project into the store through the embedding oracle.
fn index_all(service: &mut ProjectService) {
    for path in service.indexed_paths() {
        let texts = service.file_chunk_texts(&path);
        let embeddings: Vec<Embedding> = texts.iter().map(|t| embed(t)).collect();
        service.file_embedded(&path, embeddings).unwrap();
    }
}

#[test]
fn tiny_project_exact_match() {
    let mut service = ProjectService::new(vec![source(
        b"lib.rs",
        b"fn add(a: i32, b: i32) -> i32 { a + b }",
    )]);
    index_all(&mut service);
    let query = embed(b"add two numbers");
    let results = service.search_code(&query).unwrap();
    assert_eq!(results.len(), 1);
    assert!(results[0].path.ends_with(b"lib.rs"));
    assert_eq!(results[0].row.start, 0);
    let content = String::from_utf8(results[0].content.clone()).unwrap();
    assert!(content.contains("fn add"));
}

#[test]
fn unsupported_file_is_skipped_and_rest_searchable() {
    let mut service = ProjectService::new(vec![
        source(b"README.md", b"# docs\n"),
        source(b"lib.rs", b"fn add(a: i32, b: i32) -> i32 { a + b }"),
    ]);
    index_all(&mut service);
    assert_eq!(service.indexed_paths(), vec![b"lib.rs".to_vec()]);
    let results = service.search_code(&embed(b"add")).unwrap();
    assert_eq!(results.len(), 1);
    assert!(results[0].path.ends_with(b"lib.rs"));
}

#[test]
fn unscanned_file_is_never_returned() {
    // a file never handed to the service (an ignored one) cannot appear
    let mut service = ProjectService::new(vec![source(
        b"lib.rs",
        b"fn add(a: i32, b: i32) -> i32 { a + b }",
    )]);
    index_all(&mut service);
    let results = service.search_code(&embed(b"junk")).unwrap();
    for r in &results {
        assert!(!r.path.ends_with(b"junk.rs"));
    }
}

#[test]
fn incremental_update_replaces_results() {
    let mut service = ProjectService::new(vec![source(
        b"lib.rs",
        b"fn add(a: i32, b: i32) -> i32 { a + b }",
    )]);
    index_all(&mut service);
    let texts = service
        .file_updated(
            &b"lib.rs".to_vec(),
            b"fn sub(a: i32, b: i32) -> i32 { a - b }".to_vec(),
        )
        .unwrap();
    let embeddings: Vec<Embedding> = texts.iter().map(|t| embed(t)).collect();
    service.file_embedded(&b"lib.rs".to_vec(), embeddings).unwrap();
    let results = service.search_code(&embed(b"subtract")).unwrap();
    assert_eq!(results.len(), 1);
    let content = String::from_utf8(results[0].content.clone()).unwrap();
    assert!(content.contains("fn sub"));
    assert!(!content.contains("fn add"));
}

#[test]
fn update_of_new_path_indexes_it() {
    let mut service = ProjectService::new(Vec::new());
    let texts = service
        .file_updated(&b"new.rs".to_vec(), b"fn g() -> u8 { 7 }".to_vec())
        .unwrap();
    assert!(!texts.is_empty());
    let embeddings: Vec<Embedding> = texts.iter().map(|t| embed(t)).collect();
    service.file_embedded(&b"new.rs".to_vec(), embeddings).unwrap();
    let results = service.search_code(&embed(b"g")).unwrap();
    assert_eq!(results.len(), 1);
    assert!(results[0].path.ends_with(b"new.rs"));
}

#[test]
fn update_of_unsupported_path_fails() {
    let mut service = ProjectService::new(Vec::new());
    let r = service.file_updated(&b"notes.txt".to_vec(), b"hello".to_vec());
    match r {
        Err(RpcError::Internal(m)) => assert_eq!(m, "unsupported file extension"),
        _ => panic!("expected an internal error"),
    }
}

#[test]
fn mismatched_embedding_count_is_refused() {
    let mut service = ProjectService::new(vec![source(
        b"lib.rs",
        b"fn add(a: i32, b: i32) -> i32 { a + b }",
    )]);
    let r = service.file_embedded(&b"lib.rs".to_vec(), Vec::new());
    assert!(r.is_err());
    // and the store is still empty: nothing to search
    let results = service.search_code(&embed(b"add")).unwrap();
    assert_eq!(results.len(), 0);
}

#[test]
fn stale_spans_are_dropped_after_unembedded_shrink() {
    // embed a long file, then shrink it without re-embedding: spans that
    // escape the new text must be dropped rather than mis-hydrated
    let long_text: Vec<u8> = {
        let mut t = Vec::new();
        for i in 0..40 {
            t.extend_from_slice(format!("fn f{i}() -> i32 {{ {i} }}\n").as_bytes());
        }
        t
    };
    let mut service = ProjectService::new(vec![source(b"lib.rs", &long_text)]);
    index_all(&mut service);
    service
        .file_updated(&b"lib.rs".to_vec(), b"fn s() -> i32 { 0 }".to_vec())
        .unwrap();
    // no file_embedded: the store still holds spans of the old, longer text
    let results = service.search_code(&embed(b"f0")).unwrap();
    for r in &results {
        let content = String::from_utf8(r.content.clone()).unwrap();
        assert!(content.len() <= b"fn s() -> i32 { 0 }".len());
    }
}

#[test]
fn dispatcher_creates_each_root_once() {
    let mut d = Dispatcher::new();
    let a = d.get_or_create(&b"/home/p1".to_vec()).unwrap();
    let b = d.get_or_create(&b"/home/p2".to_vec()).unwrap();
    let a2 = d.get_or_create(&b"/home/p1".to_vec()).unwrap();
    assert_ne!(a, b);
    assert_eq!(a, a2);
    // repeated lookups keep answering the same indexer
    for _ in 0..10 {
        assert_eq!(d.get_or_create(&b"/home/p1".to_vec()).unwrap(), a);
    }
}

#[test]
fn same_canonical_root_same_indexer() {
    // the registry is keyed by the canonical root alone: two requests
    // whose roots canonicalize to the same bytes meet the same indexer
    let mut d = Dispatcher::new();
    let canonical = b"/home/user/project".to_vec();
    let from_relative = d.get_or_create(&canonical).unwrap();
    let from_absolute = d.get_or_create(&canonical.clone()).unwrap();
    assert_eq!(from_relative, from_absolute);
}

#[test]
fn embedding_unknown_path_is_refused() {
    let mut service = ProjectService::new(Vec::new());
    let r = service.file_embedded(&b"ghost.rs".to_vec(), Vec::new());
    match r {
        Err(RpcError::Internal(m)) => assert_eq!(m, "internal error"),
        _ => panic!("expected an internal error"),
    }
}

#[test]
fn rpc_error_messages() {
    let t = RpcError::Tarpc("connection lost".to_string());
    assert_eq!(t.message(), "connection lost");
    let i = RpcError::Internal("store refused the operation".to_string());
    assert_eq!(i.message(), "store refused the operation");
}
